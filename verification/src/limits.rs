//! Bounds checked before a native real block is decoded: its dimensions, and the worst case of
//! what decoding it can allocate.

use crate::error::FormatError;
use crate::book::{book_columns, book_encoded, book_magic};
use crate::le::{le32, lemma_u32_at, read_u16, read_u32, u16_at, u32_at};
use crate::real_block::{lemma_native_frame, native_encoded};
use crate::data::MAX_ROWS;
use crate::adaptive::{adaptive_encoded, adaptive_magic};
use crate::adaptive_roundtrip::lemma_adaptive_header_fields;
use crate::wrappers::crc32_of;
use crate::real_block::{real_magic, Mode};
use crate::segment::MAX_META;
use crate::wrappers::{block_layout, block_layout_of};
use vstd::prelude::*;

verus! {

pub const MAX_BLOCK_BYTES: usize = 128 * 1024 * 1024;
pub const MAX_METADATA_BYTES: usize = 1024 * 1024;
pub const MAX_DECODED_BYTES: usize = 128 * 1024 * 1024;

/// "GQOADP02" and "GQOBOOK1", the payload magics of the tick and book codecs.
pub open spec fn payload_magic(book: bool) -> Seq<u8> {
    if book {
        seq![71u8, 81, 79, 66, 79, 79, 75, 49]
    } else {
        seq![71u8, 81, 79, 65, 68, 80, 48, 50]
    }
}

fn starts_with(input: &[u8], at: usize, magic: [u8; 8]) -> (r: bool)
    requires
        at + 8 <= input@.len(),
    ensures
        r == (input@.subrange(at as int, at + 8) == magic@),
{
    let _n = input.len();
    let mut i: usize = 0;
    while i < 8
        invariant
            i <= 8,
            at + 8 <= input@.len() <= usize::MAX,
            forall|j: int| 0 <= j < i ==> input@[at + j] == magic@[j],
        decreases 8 - i,
    {
        if input[at + i] != magic[i] {
            assert(input@.subrange(at as int, at + 8)[i as int] != magic@[i as int]);
            return false;
        }
        i = i + 1;
    }
    assert(input@.subrange(at as int, at + 8) =~= magic@);
    true
}

fn magic_of(book: bool, payload: bool) -> (r: [u8; 8])
    ensures
        r@ == if payload { payload_magic(book) } else { real_magic(book) },
{
    let r: [u8; 8] = if payload {
        if book { [71u8, 81, 79, 66, 79, 79, 75, 49] } else { [71u8, 81, 79, 65, 68, 80, 48, 50] }
    } else {
        if book { [71u8, 81, 79, 82, 69, 65, 76, 52] } else { [71u8, 81, 79, 82, 69, 65, 76, 51] }
    };
    assert(r@ =~= if payload { payload_magic(book) } else { real_magic(book) });
    r
}

/// The rows and columns that the payload header of a tick or book codec states.
pub open spec fn payload_dimensions(payload: Seq<u8>, book: bool) -> (nat, nat) {
    if book {
        (u32_at(payload, 8) as nat, u32_at(payload, 12) as nat)
    } else {
        (u32_at(payload, 12) as nat, u16_at(payload, 10) as nat)
    }
}

/// The dimensions and metadata length of a segment block checked against its index entry and
/// the caller's row budget, or why the block is refused.
pub open spec fn bounded_dimensions_of(bytes: Seq<u8>, indexed_rows: nat, max_rows: nat, mode: Mode) -> Result<(nat, nat, nat), FormatError> {
    if bytes.len() < 32 || indexed_rows > max_rows {
        Err(FormatError::BoundedLength)
    } else {
        let end = bytes.len() - 4;
        let meta = u32_at(bytes, 8) as nat;
        if !(meta <= MAX_META && meta <= end - 12) {
            Err(FormatError::InvalidSchemaLength)
        } else {
            let payload = bytes.subrange(12 + meta as int, end);
            if payload.len() < 20 {
                Err(FormatError::TruncatedPayload)
            } else if mode != Mode::Gqodb && mode != Mode::GqodbBook {
                Err(FormatError::UnsupportedCodec)
            } else {
                let book = mode == Mode::GqodbBook;
                if bytes.subrange(0, 8) != real_magic(book) || payload.subrange(0, 8) != payload_magic(book) {
                    Err(FormatError::CodecMismatch)
                } else {
                    let (rows, cols) = payload_dimensions(payload, book);
                    if !(rows == indexed_rows && rows <= max_rows && 1 <= cols <= 64) {
                        Err(FormatError::InvalidDimensions)
                    } else {
                        Ok((rows, cols, meta))
                    }
                }
            }
        }
    }
}

/// Checks a segment block's framing and dimensions before it is decoded; returns its rows,
/// columns and schema metadata length.
pub fn bounded_dimensions(bytes: &[u8], indexed_rows: usize, max_rows: usize, mode: Mode) -> (r: Result<(usize, usize, usize), FormatError>)
    ensures
        r matches Ok((rows, cols, meta)) ==> bounded_dimensions_of(bytes@, indexed_rows as nat, max_rows as nat, mode)
            == Ok::<(nat, nat, nat), FormatError>((rows as nat, cols as nat, meta as nat)),
        r matches Err(e) ==> bounded_dimensions_of(bytes@, indexed_rows as nat, max_rows as nat, mode)
            == Err::<(nat, nat, nat), FormatError>(e),
{
    let n = bytes.len();
    if n < 32 || indexed_rows > max_rows {
        return Err(FormatError::BoundedLength);
    }
    let end = n - 4;
    let meta = read_u32(bytes, 8) as usize;
    if !(meta <= MAX_META && meta <= end - 12) {
        return Err(FormatError::InvalidSchemaLength);
    }
    let start = 12 + meta;
    if end - start < 20 {
        return Err(FormatError::TruncatedPayload);
    }
    let book = match mode {
        Mode::Gqodb => false,
        Mode::GqodbBook => true,
        _ => {
            return Err(FormatError::UnsupportedCodec);
        },
    };
    let payload = &bytes[start..end];
    if !starts_with(bytes, 0, magic_of(book, false)) || !starts_with(payload, 0, magic_of(book, true)) {
        return Err(FormatError::CodecMismatch);
    }
    let (rows, cols) = if book {
        (read_u32(payload, 8) as usize, read_u32(payload, 12) as usize)
    } else {
        (read_u32(payload, 12) as usize, read_u16(payload, 10) as usize)
    };
    if !(rows == indexed_rows && rows <= max_rows && 1 <= cols && cols <= 64) {
        return Err(FormatError::InvalidDimensions);
    }
    Ok((rows, cols, meta))
}

/// The largest of some lengths, or zero for none.
pub open spec fn max_len(lengths: Seq<usize>) -> nat
    decreases lengths.len(),
{
    if lengths.len() == 0 {
        0
    } else {
        let m = max_len(lengths.drop_last());
        if lengths.last() > m {
            lengths.last() as nat
        } else {
            m
        }
    }
}

/// What a block's schema metadata says about the bytes its decoding may take: for each schema
/// field, whether it holds large strings (`None` where the metadata has no Arrow schema), and
/// for each column mapping, the byte length of each entry of its dictionary (`None` for an
/// entry that is not a string, and for a mapping without a dictionary array; `None` overall
/// where the metadata has no column mapping array).
#[derive(Clone, Debug)]
pub struct BlockLayout {
    pub strings: Option<Vec<bool>>,
    pub columns: Option<Vec<Option<Vec<Option<usize>>>>>,
}

pub open spec fn dict_view(d: Option<Vec<Option<usize>>>) -> Option<Seq<Option<usize>>> {
    match d {
        Some(v) => Some(v@),
        None => None,
    }
}

pub open spec fn dicts_view(ds: Seq<Option<Vec<Option<usize>>>>) -> Seq<Option<Seq<Option<usize>>>> {
    Seq::new(ds.len(), |j: int| dict_view(ds[j]))
}

impl View for BlockLayout {
    type V = (Option<Seq<bool>>, Option<Seq<Option<Seq<Option<usize>>>>>);

    open spec fn view(&self) -> Self::V {
        (
            match self.strings {
                Some(v) => Some(v@),
                None => None,
            },
            match self.columns {
                Some(v) => Some(dicts_view(v@)),
                None => None,
            },
        )
    }
}

/// Why the worst case of decoding a block cannot be bounded, or is too large.
#[derive(Clone, Copy, Debug, PartialEq, Eq, Structural)]
pub enum BoundError {
    /// The block's framing or dimensions are refused, or its worst case is too large.
    Format(FormatError),
    /// Schema metadata that is not JSON.
    UnreadableMetadata,
    /// Metadata without an Arrow schema.
    InvalidSchema,
    /// Metadata without an array of column mappings.
    MissingColumnMapping,
    /// A column mapping without a dictionary array.
    MissingDictionary,
    /// A dictionary entry that is not a string.
    InvalidDictionaryEntry,
}

pub open spec fn entry_lengths(entries: Seq<Option<usize>>) -> Seq<usize> {
    Seq::new(entries.len(), |k: int| entries[k].unwrap())
}

/// The longest entry of a dictionary, or why it has none.
pub open spec fn dictionary_width(dict: Option<Seq<Option<usize>>>) -> Result<nat, BoundError> {
    match dict {
        None => Err(BoundError::MissingDictionary),
        Some(entries) => if exists|k: int| 0 <= k < entries.len() && #[trigger] entries[k] is None {
            Err(BoundError::InvalidDictionaryEntry)
        } else {
            Ok(max_len(entry_lengths(entries)))
        },
    }
}

/// Adds `rows` times the longest dictionary entry of each selected mapping, from mapping `j`
/// on, to `estimate`; a sum that leaves `usize` is an overflow.
pub open spec fn strings_estimate(rows: nat, selected: Seq<bool>, dicts: Seq<Option<Seq<Option<usize>>>>, j: int, estimate: nat) -> Result<nat, BoundError>
    decreases dicts.len() - j,
{
    if j < 0 || j >= dicts.len() {
        Ok(estimate)
    } else if !selected[j] {
        strings_estimate(rows, selected, dicts, j + 1, estimate)
    } else {
        match dictionary_width(dicts[j]) {
            Err(e) => Err(e),
            Ok(w) => if rows * w > usize::MAX || estimate + rows * w > usize::MAX {
                Err(BoundError::Format(FormatError::ExpansionOverflow))
            } else {
                strings_estimate(rows, selected, dicts, j + 1, estimate + rows * w)
            },
        }
    }
}

/// The worst case of decoding `rows` rows of `cols` stored and `fields` restored columns, eight
/// bytes each, plus the longest dictionary entry per row of each selected mapping, checked
/// against `max_bytes`.
pub open spec fn expansion_of(rows: nat, cols: nat, fields: nat, selected: Seq<bool>, dicts: Seq<Option<Seq<Option<usize>>>>, max_bytes: nat) -> Result<(), BoundError> {
    if rows * (cols + fields) * 8 > usize::MAX {
        Err(BoundError::Format(FormatError::ExpansionOverflow))
    } else {
        match strings_estimate(rows, selected, dicts, 0, rows * (cols + fields) * 8) {
            Err(e) => Err(e),
            Ok(estimate) => if estimate > max_bytes {
                Err(BoundError::Format(FormatError::ExpansionLimit))
            } else {
                Ok(())
            },
        }
    }
}

fn dictionary_width_of(dict: &Option<Vec<Option<usize>>>) -> (r: Result<usize, BoundError>)
    ensures
        r matches Ok(w) ==> dictionary_width(dict_view(*dict)) == Ok::<nat, BoundError>(w as nat),
        r matches Err(e) ==> dictionary_width(dict_view(*dict)) == Err::<nat, BoundError>(e),
{
    if dict.is_none() {
        return Err(BoundError::MissingDictionary);
    }
    let entries = dict.as_ref().unwrap();
    assert(dict_view(*dict) == Some(entries@));
    let ghost lengths = entry_lengths(entries@);
    let mut m: usize = 0;
    let mut i: usize = 0;
    while i < entries.len()
        invariant
            i <= entries@.len(),
            lengths == entry_lengths(entries@),
            dict_view(*dict) == Some(entries@),
            forall|k: int| 0 <= k < i ==> #[trigger] entries@[k] is Some,
            m == max_len(lengths.take(i as int)),
        decreases entries@.len() - i,
    {
        proof {
            assert(lengths.take(i + 1).drop_last() =~= lengths.take(i as int));
        }
        match entries[i] {
            None => {
                assert(entries@[i as int] is None);
                assert(exists|k: int| 0 <= k < entries@.len() && #[trigger] entries@[k] is None);
                return Err(BoundError::InvalidDictionaryEntry);
            },
            Some(n) => {
                if n > m {
                    m = n;
                }
            },
        }
        i = i + 1;
    }
    assert(lengths.take(entries@.len() as int) =~= lengths);
    Ok(m)
}

/// Checks the worst case of decoding a block against `max_bytes`: `rows` rows of `cols` stored
/// and `fields` restored columns, and the dictionaries of the selected column mappings, taken
/// in order.
pub fn layout_expansion(
    rows: usize,
    cols: usize,
    fields: usize,
    selected: &Vec<bool>,
    dicts: &Vec<Option<Vec<Option<usize>>>>,
    max_bytes: usize,
) -> (r: Result<(), BoundError>)
    requires
        cols <= 64,
        fields <= 64,
        selected@.len() == dicts@.len(),
    ensures
        r == expansion_of(rows as nat, cols as nat, fields as nat, selected@, dicts_view(dicts@), max_bytes as nat),
{
    let ghost dv = dicts_view(dicts@);
    let per_row: usize = (cols + fields) * 8;
    let base = match rows.checked_mul(per_row) {
        Some(v) => v,
        None => {
            assert(rows * (cols + fields) * 8 == rows * per_row) by (nonlinear_arith)
                requires
                    per_row == (cols + fields) * 8,
            ;
            return Err(BoundError::Format(FormatError::ExpansionOverflow));
        },
    };
    assert(rows * (cols + fields) * 8 == base) by (nonlinear_arith)
        requires
            per_row == (cols + fields) * 8,
            base == rows * per_row,
    ;
    let mut estimate = base;
    let mut j: usize = 0;
    while j < dicts.len()
        invariant
            j <= dicts@.len() == selected@.len(),
            dv == dicts_view(dicts@),
            base == rows * (cols + fields) * 8,
            strings_estimate(rows as nat, selected@, dv, 0, base as nat) == strings_estimate(
                rows as nat,
                selected@,
                dv,
                j as int,
                estimate as nat,
            ),
        decreases dicts@.len() - j,
    {
        assert(dv[j as int] == dict_view(dicts@[j as int]));
        if selected[j] {
            let width = match dictionary_width_of(&dicts[j]) {
                Ok(w) => w,
                Err(e) => {
                    return Err(e);
                },
            };
            let extra = match rows.checked_mul(width) {
                Some(v) => v,
                None => {
                    return Err(BoundError::Format(FormatError::ExpansionOverflow));
                },
            };
            estimate = match estimate.checked_add(extra) {
                Some(v) => v,
                None => {
                    return Err(BoundError::Format(FormatError::ExpansionOverflow));
                },
            };
        }
        j = j + 1;
    }
    if estimate > max_bytes {
        return Err(BoundError::Format(FormatError::ExpansionLimit));
    }
    Ok(())
}

/// A segment block's bounds checked before it is decoded: its framing and dimensions against
/// its index entry and the row budget, then, from its schema metadata, at most 64 column
/// mappings and the worst case of decoding (every mapping's dictionary counted) against the
/// byte budget.
pub open spec fn bounded_of(bytes: Seq<u8>, indexed_rows: nat, max_rows: nat, max_bytes: nat, mode: Mode) -> Result<(), BoundError> {
    match bounded_dimensions_of(bytes, indexed_rows, max_rows, mode) {
        Err(e) => Err(BoundError::Format(e)),
        Ok((rows, cols, meta)) => match block_layout_of(bytes.subrange(12, 12 + meta as int)) {
            None => Err(BoundError::UnreadableMetadata),
            Some(layout) => match layout.1 {
                None => Err(BoundError::MissingColumnMapping),
                Some(dicts) => if dicts.len() > 64 {
                    Err(BoundError::Format(FormatError::MappingLimit))
                } else {
                    expansion_of(rows, cols, dicts.len(), Seq::new(dicts.len(), |j: int| true), dicts, max_bytes)
                },
            },
        },
    }
}

/// Checks a segment block's bounds before it is decoded.
pub fn bounded_check(bytes: &[u8], indexed_rows: usize, max_rows: usize, max_bytes: usize, mode: Mode) -> (r: Result<(), BoundError>)
    ensures
        r == bounded_of(bytes@, indexed_rows as nat, max_rows as nat, max_bytes as nat, mode),
{
    let (rows, cols, meta) = match bounded_dimensions(bytes, indexed_rows, max_rows, mode) {
        Ok(d) => d,
        Err(e) => {
            return Err(BoundError::Format(e));
        },
    };
    let layout = match block_layout(&bytes[12..12 + meta]) {
        Some(l) => l,
        None => {
            return Err(BoundError::UnreadableMetadata);
        },
    };
    let dicts = match layout.columns {
        Some(d) => d,
        None => {
            return Err(BoundError::MissingColumnMapping);
        },
    };
    if dicts.len() > 64 {
        return Err(BoundError::Format(FormatError::MappingLimit));
    }
    let mut selected: Vec<bool> = Vec::new();
    while selected.len() < dicts.len()
        invariant
            selected@.len() <= dicts@.len(),
            forall|j: int| 0 <= j < selected@.len() ==> #[trigger] selected@[j],
        decreases dicts@.len() - selected@.len(),
    {
        selected.push(true);
    }
    assert(selected@ =~= Seq::new(dicts@.len(), |j: int| true));
    layout_expansion(rows, cols, dicts.len(), &selected, &dicts, max_bytes)
}

/// The book codec's header: its magic, then the row and column counts.
proof fn lemma_book_header(values: Seq<Seq<i64>>)
    requires
        book_encoded(values) is Ok,
    ensures
        book_encoded(values).unwrap().len() >= 20,
        book_encoded(values).unwrap().subrange(0, 8) == payload_magic(true),
        u32_at(book_encoded(values).unwrap(), 8) == values[0].len(),
        u32_at(book_encoded(values).unwrap(), 12) == values.len(),
        values[0].len() <= MAX_ROWS,
        1 <= values.len() <= 64,
{
    let rows = values[0].len();
    let cols = values.len();
    let p = book_encoded(values).unwrap();
    let inner = book_magic() + le32(rows as u32) + le32(cols as u32) + book_columns(values, cols);
    assert(p == inner + le32(crc32_of(inner)));
    assert(forall|v: u32| #[trigger] le32(v).len() == 4);
    assert(p.subrange(0, 8) =~= payload_magic(true));
    assert(p.subrange(8, 12) =~= le32(rows as u32));
    lemma_u32_at(p, 8, rows as u32);
    assert(p.subrange(12, 16) =~= le32(cols as u32));
    lemma_u32_at(p, 12, cols as u32);
}

/// The framing of a native block around a codec's output `p`.
proof fn lemma_native_layout(meta: Seq<u8>, p: Seq<u8>, book: bool)
    requires
        p.len() >= 20,
        meta.len() <= MAX_META,
    ensures
        ({
            let body = real_magic(book) + le32(meta.len() as u32) + meta + p;
            let block = body + le32(crc32_of(body));
            &&& block.len() >= 32
            &&& u32_at(block, 8) == meta.len()
            &&& block.subrange(0, 8) == real_magic(book)
            &&& block.subrange(12 + meta.len() as int, block.len() - 4) == p
        }),
{
    let body = real_magic(book) + le32(meta.len() as u32) + meta + p;
    let block = body + le32(crc32_of(body));
    assert(forall|v: u32| #[trigger] le32(v).len() == 4);
    lemma_native_frame(body, block, meta, p, book);
    assert(block.subrange(8, 12) =~= le32(meta.len() as u32));
    lemma_u32_at(block, 8, meta.len() as u32);
    assert(block.subrange(0, 8) =~= real_magic(book));
}

/// A bounded read of a book block reads back the dimensions that the book encoder wrote: for a
/// native block framing the book codec's output for `values`, the checked dimensions are the
/// columns' row count and the number of columns, with the metadata's length.
pub proof fn lemma_bounded_reads_book_dimensions(values: Seq<Seq<i64>>, meta: Seq<u8>, max_rows: nat)
    requires
        native_encoded(values, meta, true) is Ok,
        meta.len() <= MAX_META,
        values[0].len() <= max_rows,
    ensures
        bounded_dimensions_of(native_encoded(values, meta, true).unwrap(), values[0].len(), max_rows, Mode::GqodbBook)
            == Ok::<(nat, nat, nat), FormatError>((values[0].len(), values.len(), meta.len())),
{
    let p = book_encoded(values).unwrap();
    lemma_book_header(values);
    lemma_native_layout(meta, p, true);
    let block = native_encoded(values, meta, true).unwrap();
    let payload = block.subrange(12 + meta.len() as int, block.len() - 4);
    assert(payload == p);
    assert(payload_dimensions(payload, true) == (values[0].len(), values.len()));
}

/// A bounded read of a tick block reads back the dimensions that the adaptive encoder wrote:
/// for a native block framing the tick codec's output for `values`, the checked dimensions are
/// the columns' row count and the number of columns, with the metadata's length.
pub proof fn lemma_bounded_reads_tick_dimensions(values: Seq<Seq<i64>>, meta: Seq<u8>, max_rows: nat)
    requires
        native_encoded(values, meta, false) is Ok,
        meta.len() <= MAX_META,
        values[0].len() <= max_rows,
    ensures
        bounded_dimensions_of(native_encoded(values, meta, false).unwrap(), values[0].len(), max_rows, Mode::Gqodb)
            == Ok::<(nat, nat, nat), FormatError>((values[0].len(), values.len(), meta.len())),
{
    let p = adaptive_encoded(values, true, 0).unwrap();
    lemma_adaptive_header_fields(values, true, 0);
    assert(adaptive_magic() =~= payload_magic(false));
    lemma_native_layout(meta, p, false);
    let block = native_encoded(values, meta, false).unwrap();
    let payload = block.subrange(12 + meta.len() as int, block.len() - 4);
    assert(payload == p);
    assert(payload_dimensions(payload, false) == (values[0].len(), values.len()));
}

} // verus!
