//! Run reduction and byte-plane LZ4 for normalized book columns. Preserves row order, every
//! integer bit, and all repeated event metadata.
use crate::adaptive::{offset_summary, packed_bytes, quotients_of, rows_invalid, summarize_offsets};
use crate::data::MAX_ROWS;
use crate::error::FormatError;
use crate::le::{le32, le64, push_u32, push_u64, read_u32, read_u64, u32_at, u64_at};
use crate::wrappers::{crc32, crc32_of, lz4_compress, lz4_compressed, lz4_decoded};
use vstd::prelude::*;
use vstd::std_specs::bits::u64_leading_zeros;
use vstd::wrapping::u64_specs;

verus! {

pub const BOOK_MAX_BYTES: usize = 128 * 1024 * 1024;

/// "GQOBOOK1": the magic and version of a book block.
pub open spec fn book_magic() -> Seq<u8> {
    seq![71u8, 81, 79, 66, 79, 79, 75, 49]
}

/// The whole bytes that the largest quotient needs.
pub open spec fn byte_width(max: u64, scale: u64) -> u8 {
    (((64 - u64_leading_zeros((max / scale) as u64)) + 7) / 8) as u8
}

/// Byte `b` of each quotient in turn, for the planes `0..w`, least significant plane first.
pub open spec fn byte_planes(qs: Seq<u64>, w: nat) -> Seq<u8>
    decreases w,
{
    if w == 0 {
        Seq::empty()
    } else {
        byte_planes(qs, (w - 1) as nat) + Seq::new(qs.len(), |i: int| (qs[i] >> (8 * (w - 1)) as u64) as u8)
    }
}

/// The base, scale, byte width and byte planes of a column.
pub open spec fn planes_of(values: Seq<i64>) -> (i64, u64, u8, Seq<u8>) {
    let (base, scale, max) = offset_summary(values);
    let w = byte_width(max, scale);
    (base, scale, w, byte_planes(quotients_of(values, base, scale), w as nat))
}

/// The number of runs of equal neighbouring values.
pub open spec fn run_count(column: Seq<i64>) -> nat
    decreases column.len(),
{
    if column.len() <= 1 {
        column.len()
    } else {
        run_count(column.drop_last()) + if column.last() != column[column.len() - 2] { 1nat } else { 0nat }
    }
}

/// The value and length of each run, in order.
pub open spec fn runs_of(column: Seq<i64>) -> (Seq<i64>, Seq<u32>)
    decreases column.len(),
{
    if column.len() == 0 {
        (Seq::empty(), Seq::empty())
    } else {
        let (unique, lengths) = runs_of(column.drop_last());
        if unique.len() > 0 && unique.last() == column.last() {
            (unique, lengths.update(lengths.len() - 1, (lengths.last() + 1) as u32))
        } else {
            (unique.push(column.last()), lengths.push(1u32))
        }
    }
}

/// Byte `b` of each run length in turn, for the planes `0..k`.
pub open spec fn count_planes(lengths: Seq<u32>, k: nat) -> Seq<u8>
    decreases k,
{
    if k == 0 {
        Seq::empty()
    } else {
        count_planes(lengths, (k - 1) as nat) + Seq::new(lengths.len(), |i: int| (lengths[i] >> (8 * (k - 1)) as u32) as u8)
    }
}

/// Whether a column is stored as runs: when it has rows and at most a quarter as many runs.
pub open spec fn uses_runs(column: Seq<i64>, rows: nat) -> bool {
    rows > 0 && run_count(column) <= rows / 4
}

/// Whether a column is stored as runs, how many values it stores, and their base, scale,
/// byte width and planes (the run-length planes after them).
#[verifier::opaque]
pub open spec fn column_parts(column: Seq<i64>, rows: nat) -> (bool, nat, i64, u64, u8, Seq<u8>) {
    let rle = uses_runs(column, rows);
    let (unique, lengths) = runs_of(column);
    let input = if rle { unique } else { column };
    let (base, scale, w, planes) = planes_of(input);
    (rle, input.len(), base, scale, w, if rle { planes + count_planes(lengths, 4) } else { planes })
}

/// One stored column: flags, value count, base, scale and stored length, then the byte
/// planes (and run-length planes), LZ4-compressed where that is shorter.
pub open spec fn book_column(column: Seq<i64>, rows: nat) -> Seq<u8> {
    let (rle, count, base, scale, w, raw) = column_parts(column, rows);
    let z = lz4_compressed(raw);
    let zipped = z.len() < raw.len();
    let stored = if zipped { z } else { raw };
    seq![if rle { 1u8 } else { 0u8 }, w, if zipped { 1u8 } else { 0u8 }, 0u8] + le32(count as u32)
        + le64(base as u64) + le64(scale) + le32(stored.len() as u32) + stored
}

/// The stored columns of the first `k` columns.
pub open spec fn book_columns(values: Seq<Seq<i64>>, k: nat) -> Seq<u8>
    decreases k,
{
    if k == 0 {
        Seq::empty()
    } else {
        book_columns(values, (k - 1) as nat) + book_column(values[k - 1], values[0].len())
    }
}

/// A book block: magic, rows, columns, the stored columns and a CRC-32.
pub open spec fn book_encoded(values: Seq<Seq<i64>>) -> Result<Seq<u8>, FormatError> {
    let cols = values.len();
    if !(1 <= cols <= 64) {
        Err(FormatError::InvalidColumns)
    } else if rows_invalid(values) {
        Err(FormatError::InvalidRows)
    } else {
        let body = book_magic() + le32(values[0].len() as u32) + le32(cols as u32) + book_columns(values, cols);
        if body.len() + 4 > BOOK_MAX_BYTES {
            Err(FormatError::EncodedTooLarge)
        } else {
            Ok(body + le32(crc32_of(body)))
        }
    }
}

fn byte_planes_of(qs: &Vec<u64>, w: u8) -> (out: Vec<u8>)
    requires
        w <= 8,
    ensures
        out@ == byte_planes(qs@, w as nat),
{
    let n = qs.len();
    let mut out: Vec<u8> = Vec::new();
    let mut b: u8 = 0;
    while b < w
        invariant
            b <= w <= 8,
            n == qs@.len(),
            out@ == byte_planes(qs@, b as nat),
        decreases w - b,
    {
        let ghost before = out@;
        let mut i: usize = 0;
        while i < n
            invariant
                b < w <= 8,
                i <= n == qs@.len(),
                out@ =~= before + Seq::new(i as nat, |j: int| (qs@[j] >> (8 * b) as u64) as u8),
            decreases n - i,
        {
            out.push((qs[i] >> (8 * b as u64)) as u8);
            i = i + 1;
        }
        b = b + 1;
    }
    out
}

/// The base, scale, byte width and byte planes of a column.
fn planes(values: &[i64]) -> (r: (i64, u64, u8, Vec<u8>))
    ensures
        (r.0, r.1, r.2, r.3@) == planes_of(values@),
{
    let (base, scale, max) = summarize_offsets(values);
    let bits = 64 - (max / scale).leading_zeros();
    let width = ((bits + 7) / 8) as u8;
    let mut qs: Vec<u64> = Vec::new();
    let mut i: usize = 0;
    while i < values.len()
        invariant
            i <= values@.len(),
            scale >= 1,
            qs@ =~= quotients_of(values@, base, scale).take(i as int),
        decreases values@.len() - i,
    {
        let offset = values[i].wrapping_sub(base) as u64;
        qs.push(if scale == 1 { offset } else { offset / scale });
        i = i + 1;
    }
    assert(quotients_of(values@, base, scale).take(values@.len() as int) =~= quotients_of(values@, base, scale));
    let out = byte_planes_of(&qs, width);
    (base, scale, width, out)
}

fn count_runs(column: &Vec<i64>) -> (r: usize)
    ensures
        r == run_count(column@),
{
    let n = column.len();
    if n == 0 {
        return 0;
    }
    let mut runs: usize = 1;
    let mut i: usize = 1;
    while i < n
        invariant
            1 <= i <= n == column@.len(),
            runs == run_count(column@.take(i as int)),
            runs <= i,
        decreases n - i,
    {
        proof {
            assert(column@.take(i + 1).drop_last() =~= column@.take(i as int));
        }
        if column[i] != column[i - 1] {
            runs = runs + 1;
        }
        i = i + 1;
    }
    assert(column@.take(n as int) =~= column@);
    runs
}

fn collect_runs(column: &Vec<i64>) -> (r: (Vec<i64>, Vec<u32>))
    requires
        column@.len() <= MAX_ROWS,
    ensures
        (r.0@, r.1@) == runs_of(column@),
{
    let n = column.len();
    let mut unique: Vec<i64> = Vec::new();
    let mut lengths: Vec<u32> = Vec::new();
    let mut i: usize = 0;
    while i < n
        invariant
            i <= n == column@.len() <= MAX_ROWS,
            (unique@, lengths@) == runs_of(column@.take(i as int)),
            unique@.len() == lengths@.len(),
            forall|j: int| 0 <= j < lengths@.len() ==> #[trigger] lengths@[j] <= i,
        decreases n - i,
    {
        proof {
            assert(column@.take(i + 1).drop_last() =~= column@.take(i as int));
        }
        let v = column[i];
        if unique.len() > 0 && unique[unique.len() - 1] == v {
            let last = lengths.len() - 1;
            let next = lengths[last] + 1;
            lengths.set(last, next);
        } else {
            unique.push(v);
            lengths.push(1u32);
        }
        i = i + 1;
    }
    assert(column@.take(n as int) =~= column@);
    (unique, lengths)
}

fn count_planes_of(lengths: &Vec<u32>, out: &mut Vec<u8>)
    ensures
        final(out)@ == old(out)@ + count_planes(lengths@, 4),
{
    let n = lengths.len();
    let ghost start = old(out)@;
    let mut b: u32 = 0;
    while b < 4
        invariant
            b <= 4,
            n == lengths@.len(),
            out@ == start + count_planes(lengths@, b as nat),
        decreases 4 - b,
    {
        let ghost before = out@;
        let mut i: usize = 0;
        while i < n
            invariant
                b < 4,
                i <= n == lengths@.len(),
                out@ =~= before + Seq::new(i as nat, |j: int| (lengths@[j] >> (8 * b) as u32) as u8),
            decreases n - i,
        {
            out.push((lengths[i] >> (8 * b)) as u8);
            i = i + 1;
        }
        proof {
            assert(start + count_planes(lengths@, (b + 1) as nat) =~= before + Seq::new(n as nat, |j: int| (lengths@[j] >> (8 * b) as u32) as u8));
        }
        b = b + 1;
    }
}

fn column_parts_of(column: &Vec<i64>, rows: usize) -> (r: (bool, usize, i64, u64, u8, Vec<u8>))
    requires
        column@.len() <= MAX_ROWS,
    ensures
        column_parts(column@, rows as nat) == (r.0, r.1 as nat, r.2, r.3, r.4, r.5@),
{
    let runs = count_runs(column);
    let rle = rows > 0 && runs <= rows / 4;
    let (unique, lengths) = collect_runs(column);
    let input = if rle { unique.as_slice() } else { column.as_slice() };
    let (base, scale, width, mut raw) = planes(input);
    if rle {
        count_planes_of(&lengths, &mut raw);
    }
    proof {
        reveal(column_parts);
    }
    (rle, input.len(), base, scale, width, raw)
}

/// Appends one stored column.
fn encode_column(column: &Vec<i64>, rows: usize, out: &mut Vec<u8>)
    requires
        column@.len() <= MAX_ROWS,
    ensures
        final(out)@ == old(out)@ + book_column(column@, rows as nat),
        lz4_decoded(lz4_compressed(column_parts(column@, rows as nat).5)) == Some(column_parts(column@, rows as nat).5),
{
    let (rle, count, base, scale, width, raw) = column_parts_of(column, rows);
    let compressed = lz4_compress(raw.as_slice());
    let zipped = compressed.len() < raw.len();
    out.push(if rle { 1u8 } else { 0u8 });
    out.push(width);
    out.push(if zipped { 1u8 } else { 0u8 });
    out.push(0u8);
    push_u32(out, count as u32);
    push_u64(out, base as u64);
    push_u64(out, scale);
    if zipped {
        push_u32(out, compressed.len() as u32);
        let ghost mid = out@;
        out.extend_from_slice(compressed.as_slice());
        assert(out@ =~= mid + compressed@);
    } else {
        push_u32(out, raw.len() as u32);
        let ghost mid = out@;
        out.extend_from_slice(raw.as_slice());
        assert(out@ =~= mid + raw@);
    }
    assert(final(out)@ =~= old(out)@ + book_column(column@, rows as nat));
}

/// Encodes one to sixty-four columns of equal length as a book block.
pub fn encode(values: &Vec<Vec<i64>>) -> (r: Result<Vec<u8>, FormatError>)
    ensures
        r matches Ok(v) ==> book_encoded(values@.map_values(|v: Vec<i64>| v@)) == Ok::<Seq<u8>, FormatError>(v@),
        r matches Ok(v) ==> book_decoded(v@) == Ok::<Seq<Seq<i64>>, FormatError>(values@.map_values(|v: Vec<i64>| v@)),
        r matches Err(e) ==> book_encoded(values@.map_values(|v: Vec<i64>| v@)) == Err::<Seq<u8>, FormatError>(e),
{
    let ghost vals = values@.map_values(|v: Vec<i64>| v@);
    let cols = values.len();
    if !(1 <= cols && cols <= 64) {
        return Err(FormatError::InvalidColumns);
    }
    let rows = values[0].len();
    assert(vals[0] == values@[0]@);
    if rows > MAX_ROWS {
        return Err(FormatError::InvalidRows);
    }
    let mut i: usize = 0;
    while i < cols
        invariant
            1 <= cols <= 64,
            i <= cols == values@.len(),
            vals == values@.map_values(|v: Vec<i64>| v@),
            rows == vals[0].len() <= MAX_ROWS,
            forall|j: int| 0 <= j < i ==> #[trigger] vals[j].len() == rows,
        decreases cols - i,
    {
        if values[i].len() != rows {
            assert(vals[i as int].len() != vals[0].len());
            return Err(FormatError::InvalidRows);
        }
        i = i + 1;
    }
    assert(!rows_invalid(vals));
    let mut out: Vec<u8> = Vec::new();
    let magic: [u8; 8] = [71u8, 81, 79, 66, 79, 79, 75, 49];
    let mut k: usize = 0;
    while k < 8
        invariant
            k <= 8,
            magic@ == book_magic(),
            out@ =~= book_magic().take(k as int),
        decreases 8 - k,
    {
        out.push(magic[k]);
        k = k + 1;
    }
    push_u32(&mut out, rows as u32);
    push_u32(&mut out, cols as u32);
    let ghost head = out@;
    let mut c: usize = 0;
    while c < cols
        invariant
            1 <= cols <= 64,
            c <= cols == values@.len(),
            vals == values@.map_values(|v: Vec<i64>| v@),
            rows == vals[0].len() <= MAX_ROWS,
            forall|j: int| 0 <= j < cols ==> #[trigger] vals[j].len() == rows,
            out@ == head + book_columns(vals, c as nat),
            forall|j: int| 0 <= j < c ==> lz4_decoded(lz4_compressed(#[trigger] column_parts(vals[j], vals[0].len()).5))
                == Some(column_parts(vals[j], vals[0].len()).5),
        decreases cols - c,
    {
        assert(vals[c as int] == values@[c as int]@);
        encode_column(&values[c], rows, &mut out);
        proof {
            assert(head + book_columns(vals, (c + 1) as nat) =~= head + book_columns(vals, c as nat) + book_column(vals[c as int], rows as nat));
        }
        c = c + 1;
    }
    assert(out@ =~= book_magic() + le32(vals[0].len() as u32) + le32(cols as u32) + book_columns(vals, cols as nat));
    if out.len() > BOOK_MAX_BYTES - 4 {
        return Err(FormatError::EncodedTooLarge);
    }
    let checksum = crc32(out.as_slice());
    push_u32(&mut out, checksum);
    proof {
        assert(crate::book_roundtrip::book_decompresses(vals));
        crate::book_roundtrip::lemma_book_roundtrip(vals);
    }
    Ok(out)
}

/// The quotient of value `i`: its bytes from the first `w` planes of `count` bytes each.
pub open spec fn plane_word(raw: Seq<u8>, count: nat, i: int, w: nat) -> u64
    decreases w,
{
    if w == 0 {
        0
    } else {
        plane_word(raw, count, i, (w - 1) as nat) | ((raw[(w - 1) * count + i] as u64) << (8 * (w - 1)) as u64)
    }
}

/// The `count` values that `w` byte planes stand for: `q * scale + base`, wrapping.
pub open spec fn planes_restored(raw: Seq<u8>, count: nat, base: u64, scale: u64, w: nat) -> Seq<i64> {
    Seq::new(count, |i: int| u64_specs::wrapping_add(u64_specs::wrapping_mul(plane_word(raw, count, i, w), scale), base) as i64)
}

/// The length of run `i`: its four bytes from the run-length planes after the `w` value planes.
pub open spec fn run_word(raw: Seq<u8>, w: nat, count: nat, i: int, b: nat) -> u32
    decreases b,
{
    if b == 0 {
        0
    } else {
        run_word(raw, w, count, i, (b - 1) as nat) | ((raw[(w + b - 1) * count + i] as u32) << (8 * (b - 1)) as u32)
    }
}

/// Expands runs `i..count` onto `acc`: each run at least one row, none past the rows.
pub open spec fn expand_runs(raw: Seq<u8>, w: nat, count: nat, rows: nat, decoded: Seq<i64>, i: nat, acc: Seq<i64>) -> Result<Seq<i64>, FormatError>
    decreases count - i,
{
    if i >= count {
        Ok(acc)
    } else {
        let n = run_word(raw, w, count, i as int, 4);
        if !(n > 0 && n <= rows - acc.len()) {
            Err(FormatError::InvalidRunLength)
        } else {
            expand_runs(raw, w, count, rows, decoded, i + 1, acc + Seq::new(n as nat, |k: int| decoded[i as int]))
        }
    }
}

/// The stored bytes of a column: as is, or LZ4-compressed to exactly `expanded` bytes.
pub open spec fn book_raw(payload: Seq<u8>, zipped: bool, expanded: nat) -> Result<Seq<u8>, FormatError> {
    if zipped {
        match lz4_decoded(payload) {
            None => Err(FormatError::Decompression),
            Some(raw) => if raw.len() > expanded {
                Err(FormatError::Decompression)
            } else if raw.len() != expanded {
                Err(FormatError::ExpandedLengthMismatch)
            } else {
                Ok(raw)
            },
        }
    } else if payload.len() != expanded {
        Err(FormatError::InvalidRawLength)
    } else {
        Ok(payload)
    }
}

/// The column whose entry starts at `pos`, and where the next entry starts.
pub open spec fn book_column_at(input: Seq<u8>, pos: int, rows: nat) -> Result<(Seq<i64>, int), FormatError> {
    let end = input.len() - 4;
    if end - pos < 28 {
        Err(FormatError::TruncatedEntry)
    } else {
        let rle = input[pos];
        let w = input[pos + 1];
        let zipped = input[pos + 2];
        let count = u32_at(input, pos + 4) as nat;
        let base = u64_at(input, pos + 8);
        let scale = u64_at(input, pos + 16);
        let stored = u32_at(input, pos + 24) as nat;
        let p = pos + 28;
        if !(rle <= 1 && w <= 8 && zipped <= 1 && input[pos + 3] == 0) {
            Err(FormatError::InvalidFlags)
        } else if !(scale > 0 && count <= rows) {
            Err(FormatError::InvalidCountScale)
        } else if !(if rle == 0 { count == rows } else { count > 0 && rows > 0 }) {
            Err(FormatError::InvalidRunCount)
        } else if stored > end - p {
            Err(FormatError::TruncatedPayload)
        } else {
            let expanded: nat = count * (w as nat + if rle == 1 { 4nat } else { 0nat });
            match book_raw(input.subrange(p, p + stored), zipped == 1, expanded) {
                Err(e) => Err(e),
                Ok(raw) => {
                    let decoded = planes_restored(raw, count, base, scale, w as nat);
                    let column = if rle == 1 {
                        expand_runs(raw, w as nat, count, rows, decoded, 0, Seq::empty())
                    } else {
                        Ok(decoded)
                    };
                    match column {
                        Err(e) => Err(e),
                        Ok(c) => if c.len() != rows {
                            Err(FormatError::RowCountMismatch)
                        } else {
                            Ok((c, p + stored))
                        },
                    }
                },
            }
        }
    }
}

/// Decodes the columns from the `k`-th on, the next entry at `pos`.
pub open spec fn book_columns_at(input: Seq<u8>, k: nat, cols: nat, rows: nat, pos: int, acc: Seq<Seq<i64>>) -> Result<(Seq<Seq<i64>>, int), FormatError>
    decreases cols - k,
{
    if k >= cols {
        Ok((acc, pos))
    } else {
        match book_column_at(input, pos, rows) {
            Err(e) => Err(e),
            Ok((c, p)) => book_columns_at(input, k + 1, cols, rows, p, acc.push(c)),
        }
    }
}

/// What a book block decodes to, or the first check that it fails.
pub open spec fn book_decoded(input: Seq<u8>) -> Result<Seq<Seq<i64>>, FormatError> {
    if input.len() < 20 || input.len() > BOOK_MAX_BYTES {
        Err(FormatError::InvalidBlockSize)
    } else if input.subrange(0, 8) != book_magic() {
        Err(FormatError::BadMagic)
    } else if crc32_of(input.subrange(0, input.len() - 4)) != u32_at(input, input.len() - 4) {
        Err(FormatError::ChecksumMismatch)
    } else {
        let rows = u32_at(input, 8) as nat;
        let cols = u32_at(input, 12) as nat;
        if !(rows <= MAX_ROWS && 1 <= cols <= 64) {
            Err(FormatError::InvalidDimensions)
        } else {
            match book_columns_at(input, 0, cols, rows, 16, Seq::empty()) {
                Err(e) => Err(e),
                Ok((values, pos)) => if pos != input.len() - 4 {
                    Err(FormatError::TrailingBlockBytes)
                } else {
                    Ok(values)
                },
            }
        }
    }
}

/// The `count` values of `width` byte planes.
pub fn restore_planes(raw: &[u8], count: usize, base: u64, scale: u64, width: usize) -> (r: Vec<i64>)
    requires
        1 <= width <= 8,
        count * width <= raw@.len(),
    ensures
        r@ == planes_restored(raw@, count as nat, base, scale, width as nat),
{
    let _n = raw.len();
    let mut result: Vec<i64> = Vec::new();
    let mut i: usize = 0;
    while i < count
        invariant
            1 <= width <= 8,
            count * width <= raw@.len() <= usize::MAX,
            i <= count,
            result@ =~= planes_restored(raw@, count as nat, base, scale, width as nat).take(i as int),
        decreases count - i,
    {
        let mut q: u64 = 0;
        let mut b: usize = 0;
        while b < width
            invariant
                1 <= width <= 8,
                count * width <= raw@.len() <= usize::MAX,
                i < count,
                b <= width,
                q == plane_word(raw@, count as nat, i as int, b as nat),
            decreases width - b,
        {
            assert(b * count + i < count * width) by (nonlinear_arith)
                requires
                    b < width,
                    i < count,
            ;
            q = q | ((raw[b * count + i] as u64) << (8 * b as u64));
            b = b + 1;
        }
        result.push(q.wrapping_mul(scale).wrapping_add(base) as i64);
        i = i + 1;
    }
    result
}

/// The length of run `i`.
fn run_length(raw: &[u8], width: usize, count: usize, i: usize) -> (r: u32)
    requires
        width <= 8,
        i < count,
        count * (width + 4) <= raw@.len(),
    ensures
        r == run_word(raw@, width as nat, count as nat, i as int, 4),
{
    let _len = raw.len();
    let mut n: u32 = 0;
    let mut b: usize = 0;
    while b < 4
        invariant
            width <= 8,
            i < count,
            count * (width + 4) <= raw@.len() <= usize::MAX,
            b <= 4,
            n == run_word(raw@, width as nat, count as nat, i as int, b as nat),
        decreases 4 - b,
    {
        assert((width + b) * count + i < count * (width + 4)) by (nonlinear_arith)
            requires
                b < 4,
                i < count,
        ;
        n = n | ((raw[(width + b) * count + i] as u32) << (8 * b as u32));
        b = b + 1;
    }
    n
}

/// Expands the runs of a run-stored column.
#[verifier::loop_isolation(false)]
fn expand(raw: &[u8], width: usize, count: usize, rows: usize, decoded: &Vec<i64>) -> (r: Result<Vec<i64>, FormatError>)
    requires
        width <= 8,
        count * (width + 4) <= raw@.len(),
        decoded@.len() == count,
    ensures
        r matches Ok(c) ==> expand_runs(raw@, width as nat, count as nat, rows as nat, decoded@, 0, Seq::empty())
            == Ok::<Seq<i64>, FormatError>(c@),
        r matches Err(e) ==> expand_runs(raw@, width as nat, count as nat, rows as nat, decoded@, 0, Seq::empty())
            == Err::<Seq<i64>, FormatError>(e),
{
    let mut column: Vec<i64> = Vec::new();
    let mut i: usize = 0;
    while i < count
        invariant
            i <= count,
            column@.len() <= rows,
            expand_runs(raw@, width as nat, count as nat, rows as nat, decoded@, 0, Seq::empty())
                == expand_runs(raw@, width as nat, count as nat, rows as nat, decoded@, i as nat, column@),
        decreases count - i,
    {
        let n = run_length(raw, width, count, i);
        if !(n > 0 && n as usize <= rows - column.len()) {
            return Err(FormatError::InvalidRunLength);
        }
        let v = decoded[i];
        let ghost before = column@;
        let mut k: u32 = 0;
        while k < n
            invariant
                k <= n,
                column@ =~= before + Seq::new(k as nat, |j: int| decoded@[i as int]),
                before.len() + n <= rows,
                v == decoded@[i as int],
            decreases n - k,
        {
            column.push(v);
            k = k + 1;
        }
        i = i + 1;
    }
    Ok(column)
}

/// Decodes the column whose entry starts at `pos`.
fn decode_column(input: &[u8], pos: usize, rows: usize, scratch: &mut Vec<u8>) -> (r: Result<(Vec<i64>, usize), FormatError>)
    requires
        20 <= input@.len(),
        16 <= pos <= input@.len() - 4,
        rows <= MAX_ROWS,
    ensures
        r matches Ok((c, p)) ==> book_column_at(input@, pos as int, rows as nat) == Ok::<(Seq<i64>, int), FormatError>((c@, p as int))
            && p <= input@.len() - 4,
        r matches Err(e) ==> book_column_at(input@, pos as int, rows as nat) == Err::<(Seq<i64>, int), FormatError>(e),
{
    let end = input.len() - 4;
    if end - pos < 28 {
        return Err(FormatError::TruncatedEntry);
    }
    let rle = input[pos];
    let width = input[pos + 1] as usize;
    let zipped = input[pos + 2];
    if !(rle <= 1 && width <= 8 && zipped <= 1 && input[pos + 3] == 0) {
        return Err(FormatError::InvalidFlags);
    }
    let count = read_u32(input, pos + 4) as usize;
    let base = read_u64(input, pos + 8);
    let scale = read_u64(input, pos + 16);
    let stored = read_u32(input, pos + 24) as usize;
    if !(scale > 0 && count <= rows) {
        return Err(FormatError::InvalidCountScale);
    }
    if !(if rle == 0 { count == rows } else { count > 0 && rows > 0 }) {
        return Err(FormatError::InvalidRunCount);
    }
    let p = pos + 28;
    if stored > end - p {
        return Err(FormatError::TruncatedPayload);
    }
    let extra: usize = if rle == 1 { 4 } else { 0 };
    assert(count * (width + extra) <= MAX_ROWS * 12) by (nonlinear_arith)
        requires
            count <= MAX_ROWS,
            width + extra <= 12,
    ;
    let expanded = count * (width + extra);
    let payload = &input[p..p + stored];
    let raw = if zipped == 1 {
        match packed_bytes(payload, true, expanded, scratch) {
            Ok(raw) => raw,
            Err(e) => {
                return Err(e);
            },
        }
    } else {
        if payload.len() != expanded {
            return Err(FormatError::InvalidRawLength);
        }
        let mut copy: Vec<u8> = Vec::new();
        copy.extend_from_slice(payload);
        assert(copy@ =~= payload@);
        copy
    };
    assert(book_raw(input@.subrange(p as int, p + stored), zipped == 1, expanded as nat) == Ok::<Seq<u8>, FormatError>(raw@));
    let decoded = if width == 0 {
        let mut d: Vec<i64> = Vec::new();
        let mut i: usize = 0;
        while i < count
            invariant
                i <= count,
                d@ =~= planes_restored(raw@, count as nat, base, scale, 0).take(i as int),
            decreases count - i,
        {
            d.push(base as i64);
            i = i + 1;
        }
        d
    } else {
        assert(count * width <= count * (width + if rle == 1 { 4nat } else { 0nat })) by (nonlinear_arith);
        restore_planes(raw.as_slice(), count, base, scale, width)
    };
    assert(decoded@ =~= planes_restored(raw@, count as nat, base, scale, width as nat));
    let column = if rle == 1 {
        match expand(raw.as_slice(), width, count, rows, &decoded) {
            Ok(c) => c,
            Err(e) => {
                return Err(e);
            },
        }
    } else {
        decoded
    };
    if column.len() != rows {
        return Err(FormatError::RowCountMismatch);
    }
    Ok((column, p + stored))
}

fn has_book_magic(input: &[u8]) -> (r: bool)
    requires
        8 <= input@.len(),
    ensures
        r == (input@.subrange(0, 8) == book_magic()),
{
    let magic: [u8; 8] = [71u8, 81, 79, 66, 79, 79, 75, 49];
    let mut i: usize = 0;
    while i < 8
        invariant
            i <= 8 <= input@.len(),
            magic@ == book_magic(),
            forall|j: int| 0 <= j < i ==> input@[j] == magic@[j],
        decreases 8 - i,
    {
        if input[i] != magic[i] {
            assert(input@.subrange(0, 8)[i as int] != book_magic()[i as int]);
            return false;
        }
        i = i + 1;
    }
    assert(input@.subrange(0, 8) =~= book_magic());
    true
}

/// Decodes a book block, reusing `scratch` for decompression. What the call leaves in
/// `scratch` is not stated.
#[verifier::loop_isolation(false)]
pub fn decode(input: &[u8], scratch: &mut Vec<u8>) -> (r: Result<Vec<Vec<i64>>, FormatError>)
    ensures
        r matches Ok(v) ==> book_decoded(input@) == Ok::<Seq<Seq<i64>>, FormatError>(v@.map_values(|c: Vec<i64>| c@)),
        r matches Err(e) ==> book_decoded(input@) == Err::<Seq<Seq<i64>>, FormatError>(e),
{
    let n = input.len();
    if n < 20 || n > BOOK_MAX_BYTES {
        return Err(FormatError::InvalidBlockSize);
    }
    if !has_book_magic(input) {
        return Err(FormatError::BadMagic);
    }
    let end = n - 4;
    let expected = read_u32(input, end);
    if crc32(&input[0..end]) != expected {
        return Err(FormatError::ChecksumMismatch);
    }
    let rows = read_u32(input, 8) as usize;
    let cols = read_u32(input, 12) as usize;
    if !(rows <= MAX_ROWS && 1 <= cols && cols <= 64) {
        return Err(FormatError::InvalidDimensions);
    }
    let mut result: Vec<Vec<i64>> = Vec::new();
    let mut pos: usize = 16;
    let mut k: usize = 0;
    assert(result@.map_values(|c: Vec<i64>| c@) =~= Seq::<Seq<i64>>::empty());
    while k < cols
        invariant
            k <= cols,
            16 <= pos <= end,
            book_columns_at(input@, 0, cols as nat, rows as nat, 16, Seq::empty())
                == book_columns_at(input@, k as nat, cols as nat, rows as nat, pos as int, result@.map_values(|c: Vec<i64>| c@)),
        decreases cols - k,
    {
        let (column, next) = match decode_column(input, pos, rows, scratch) {
            Ok(t) => t,
            Err(e) => {
                return Err(e);
            },
        };
        let ghost before = result@.map_values(|c: Vec<i64>| c@);
        result.push(column);
        proof {
            assert(result@.map_values(|c: Vec<i64>| c@) =~= before.push(column@));
        }
        pos = next;
        k = k + 1;
    }
    if pos != end {
        return Err(FormatError::TrailingBlockBytes);
    }
    Ok(result)
}

} // verus!
