//! Lossless column predictors over SIMD bit-packed quotients.
use crate::data::{columns_error, kind_of_id, Columns, Kind, MAX_ROWS};
use crate::error::FormatError;
use crate::le::{le16, le32, le64, push_u16, push_u32, push_u64, read_u16, read_u32, read_u64, u16_at, u32_at, u64_at};
use crate::block::or_all;
use crate::wrappers::{bit_width, bitpack_compress, bitpack_num_bits, bitpacked, max_prefix, bitpack_decompress, bitunpacked, crc32, crc32_of, lz4_compressed, lz4_decompress_into, lz4_decoded};
use vstd::arithmetic::power2::pow2;
use vstd::prelude::*;
use vstd::std_specs::bits::u64_leading_zeros;
use vstd::wrapping::{i64_specs, u64_specs};

verus! {

pub const ADAPTIVE_MAX_BYTES: usize = 128 * 1024 * 1024;

/// "GQOADP02": the magic and version of an adaptive block.
pub open spec fn adaptive_magic() -> Seq<u8> {
    seq![71u8, 81, 79, 65, 68, 80, 48, 50]
}

/// How a column is predicted before its residuals are packed.
#[derive(Clone, Copy, Debug, PartialEq, Eq, Structural)]
pub enum Predictor {
    Absolute,
    Delta,
    Linear,
    Reference,
}

/// The stored id of each predictor.
pub open spec fn predictor_id(p: Predictor) -> u8 {
    match p {
        Predictor::Absolute => 0,
        Predictor::Delta => 1,
        Predictor::Linear => 2,
        Predictor::Reference => 3,
    }
}

/// The predictor with a stored id.
pub open spec fn predictor_of_id(id: u8) -> Option<Predictor> {
    if id == 0 {
        Some(Predictor::Absolute)
    } else if id == 1 {
        Some(Predictor::Delta)
    } else if id == 2 {
        Some(Predictor::Linear)
    } else if id == 3 {
        Some(Predictor::Reference)
    } else {
        None
    }
}

impl Predictor {
    pub fn id(self) -> (r: u8)
        ensures
            r == predictor_id(self),
    {
        match self {
            Predictor::Absolute => 0,
            Predictor::Delta => 1,
            Predictor::Linear => 2,
            Predictor::Reference => 3,
        }
    }
}

/// The value that a stored quotient stands for: `q * scale + base`, wrapping.
pub open spec fn quotient_value(q: u64, base: i64, scale: u64) -> i64 {
    u64_specs::wrapping_add(u64_specs::wrapping_mul(q, scale), base as u64) as i64
}

/// The 128 quotients of a SIMD group: all zero for width zero.
pub open spec fn simd_integers(bytes: Seq<u8>, width: u8) -> Seq<u32> {
    if width == 0 {
        Seq::new(128, |k: int| 0u32)
    } else {
        bitunpacked(bytes, width)
    }
}

/// The smaller of the values still to read and a group of 128.
pub open spec fn group_count(remaining: nat) -> nat {
    if remaining < 128 {
        remaining
    } else {
        128
    }
}

/// Reads packed groups at `pos` until `remaining` more values follow `acc`: a width byte,
/// then either `count` little-endian 64-bit quotients (width 255) or a SIMD group of 16 bytes
/// per bit of width (at most 32) whose unused slots are zero.
pub open spec fn unpack_from(input: Seq<u8>, pos: int, remaining: nat, base: i64, scale: u64, acc: Seq<i64>) -> Result<(Seq<i64>, int), FormatError>
    decreases remaining,
{
    if remaining == 0 {
        Ok((acc, pos))
    } else if pos < 0 || pos >= input.len() {
        Err(FormatError::MissingPackedWidth)
    } else {
        let width = input[pos];
        let p = pos + 1;
        let count = group_count(remaining);
        if width == 255 {
            if p + 8 * count > input.len() {
                Err(FormatError::TruncatedWideGroup)
            } else {
                unpack_from(input, p + 8 * count, (remaining - count) as nat, base, scale,
                    acc + Seq::new(count, |k: int| quotient_value(u64_at(input, p + 8 * k), base, scale)))
            }
        } else if width > 32 {
            Err(FormatError::InvalidSimdWidth)
        } else if p + 16 * width > input.len() {
            Err(FormatError::TruncatedSimdGroup)
        } else {
            let ints = simd_integers(input.subrange(p, p + 16 * width), width);
            if exists|k: int| count <= k < 128 && #[trigger] ints[k] != 0 {
                Err(FormatError::NonzeroGroupPadding)
            } else {
                unpack_from(input, p + 16 * width, (remaining - count) as nat, base, scale,
                    acc + Seq::new(count, |k: int| quotient_value(ints[k] as u64, base, scale)))
            }
        }
    }
}

/// The `rows` values of a packed column, or why it is refused.
pub open spec fn unpacked(input: Seq<u8>, rows: nat, base: i64, scale: u64) -> Result<Seq<i64>, FormatError> {
    if scale == 0 {
        Err(FormatError::ZeroScale)
    } else {
        match unpack_from(input, 0, rows, base, scale, Seq::empty()) {
            Err(e) => Err(e),
            Ok((values, pos)) => if pos != input.len() {
                Err(FormatError::TrailingPackedBytes)
            } else {
                Ok(values)
            },
        }
    }
}

fn quotient(q: u64, base: i64, scale: u64) -> (r: i64)
    ensures
        r == quotient_value(q, base, scale),
{
    q.wrapping_mul(scale).wrapping_add(base as u64) as i64
}

/// Unpacks the `rows` values of a packed column.
#[verifier::loop_isolation(false)]
pub fn unpack(input: &[u8], rows: usize, base: i64, scale: u64) -> (r: Result<Vec<i64>, FormatError>)
    ensures
        r matches Ok(v) ==> unpacked(input@, rows as nat, base, scale) == Ok::<Seq<i64>, FormatError>(v@),
        r matches Err(e) ==> unpacked(input@, rows as nat, base, scale) == Err::<Seq<i64>, FormatError>(e),
{
    if scale == 0 {
        return Err(FormatError::ZeroScale);
    }
    let n = input.len();
    let mut result: Vec<i64> = Vec::new();
    let mut pos: usize = 0;
    while result.len() < rows
        invariant
            n == input@.len(),
            result@.len() <= rows,
            pos <= n,
            unpack_from(input@, 0, rows as nat, base, scale, Seq::empty())
                == unpack_from(input@, pos as int, (rows - result@.len()) as nat, base, scale, result@),
        decreases rows - result@.len(),
    {
        if pos >= n {
            return Err(FormatError::MissingPackedWidth);
        }
        let width = input[pos];
        pos = pos + 1;
        let remaining = rows - result.len();
        let count = if remaining < 128 { remaining } else { 128 };
        let ghost before = result@;
        if width == 255 {
            if count * 8 > n - pos {
                return Err(FormatError::TruncatedWideGroup);
            }
            let mut k: usize = 0;
            while k < count
                invariant
                    k <= count <= 128,
                    pos + 8 * count <= n,
                    result@ == before + Seq::new(k as nat, |j: int| quotient_value(u64_at(input@, pos + 8 * j), base, scale)),
                decreases count - k,
            {
                let q = read_u64(input, pos + 8 * k);
                result.push(quotient(q, base, scale));
                proof {
                    assert(Seq::new((k + 1) as nat, |j: int| quotient_value(u64_at(input@, pos + 8 * j), base, scale))
                        =~= Seq::new(k as nat, |j: int| quotient_value(u64_at(input@, pos + 8 * j), base, scale)).push(
                        quotient_value(u64_at(input@, pos + 8 * k), base, scale)));
                }
                k = k + 1;
            }
            pos = pos + 8 * count;
        } else {
            if width > 32 {
                return Err(FormatError::InvalidSimdWidth);
            }
            let bytes = 16 * (width as usize);
            if bytes > n - pos {
                return Err(FormatError::TruncatedSimdGroup);
            }
            let integers: [u32; 128] = if width != 0 {
                bitpack_decompress(&input[pos..pos + bytes], width)
            } else {
                [0u32; 128]
            };
            proof {
                assert(input@.subrange(pos as int, pos + bytes) == input@.subrange(pos as int, pos + 16 * width));
                if width == 0 {
                    assert(integers@ =~= Seq::new(128, |k: int| 0u32));
                }
            }
            let ghost ints = simd_integers(input@.subrange(pos as int, pos + 16 * width), width);
            assert(integers@ == ints);
            let mut k: usize = count;
            while k < 128
                invariant
                    count <= k <= 128,
                    integers@ == ints,
                    forall|j: int| count <= j < k ==> ints[j] == 0,
                decreases 128 - k,
            {
                if integers[k] != 0 {
                    assert(ints[k as int] != 0);
                    return Err(FormatError::NonzeroGroupPadding);
                }
                k = k + 1;
            }
            assert(!(exists|j: int| count <= j < 128 && #[trigger] ints[j] != 0));
            let mut k: usize = 0;
            while k < count
                invariant
                    k <= count <= 128,
                    integers@ == ints,
                    result@ == before + Seq::new(k as nat, |j: int| quotient_value(ints[j] as u64, base, scale)),
                decreases count - k,
            {
                result.push(quotient(integers[k] as u64, base, scale));
                proof {
                    assert(Seq::new((k + 1) as nat, |j: int| quotient_value(ints[j] as u64, base, scale))
                        =~= Seq::new(k as nat, |j: int| quotient_value(ints[j] as u64, base, scale)).push(
                        quotient_value(ints[k as int] as u64, base, scale)));
                }
                k = k + 1;
            }
            pos = pos + bytes;
        }
    }
    if pos != n {
        return Err(FormatError::TrailingPackedBytes);
    }
    Ok(result)
}

/// Delta restoration: each value is the previous one (the origin first) plus its residual.
pub open spec fn delta_restore(origin: i64, r: Seq<i64>) -> Seq<i64>
    decreases r.len(),
{
    if r.len() == 0 {
        Seq::empty()
    } else {
        let p = delta_restore(origin, r.drop_last());
        let previous = if p.len() == 0 { origin } else { p.last() };
        p.push(i64_specs::wrapping_add(previous, r.last()))
    }
}

/// The linear prediction for row `i`: the origin plus `i` steps, wrapping.
pub open spec fn linear_at(origin: i64, step: i64, i: nat) -> i64
    decreases i,
{
    if i == 0 {
        origin
    } else {
        i64_specs::wrapping_add(linear_at(origin, step, (i - 1) as nat), step)
    }
}

/// The values of a column from its residuals under a predictor.
pub open spec fn predicted(p: Predictor, r: Seq<i64>, origin: i64, step: i64, refs: Seq<i64>) -> Seq<i64> {
    match p {
        Predictor::Absolute => r,
        Predictor::Delta => delta_restore(origin, r),
        Predictor::Linear => Seq::new(r.len(), |i: int| i64_specs::wrapping_add(r[i], linear_at(origin, step, i as nat))),
        Predictor::Reference => Seq::new(r.len(), |i: int| i64_specs::wrapping_add(r[i], refs[i])),
    }
}

/// Restoring deltas keeps the number of values.
proof fn lemma_delta_restore_len(origin: i64, r: Seq<i64>)
    ensures
        delta_restore(origin, r).len() == r.len(),
    decreases r.len(),
{
    if r.len() > 0 {
        lemma_delta_restore_len(origin, r.drop_last());
    }
}

fn restore_values(p: Predictor, r: Vec<i64>, origin: i64, step: i64, refs: &Vec<i64>) -> (out: Vec<i64>)
    requires
        p == Predictor::Reference ==> refs@.len() >= r@.len(),
    ensures
        out@ == predicted(p, r@, origin, step, refs@),
        out@.len() == r@.len(),
{
    match p {
        Predictor::Absolute => r,
        Predictor::Delta => {
            let mut out: Vec<i64> = Vec::new();
            let mut previous = origin;
            let mut i: usize = 0;
            while i < r.len()
                invariant
                    i <= r@.len(),
                    out@ == delta_restore(origin, r@.take(i as int)),
                    out@.len() == i,
                    previous == (if i == 0 { origin } else { out@.last() }),
                decreases r@.len() - i,
            {
                previous = previous.wrapping_add(r[i]);
                out.push(previous);
                proof {
                    assert(r@.take(i + 1).drop_last() =~= r@.take(i as int));
                }
                i = i + 1;
            }
            assert(r@.take(r@.len() as int) =~= r@);
            out
        },
        Predictor::Linear => {
            let mut out: Vec<i64> = Vec::new();
            let mut prediction = origin;
            let mut i: usize = 0;
            while i < r.len()
                invariant
                    i <= r@.len(),
                    prediction == linear_at(origin, step, i as nat),
                    out@ =~= Seq::new(i as nat, |j: int| i64_specs::wrapping_add(r@[j], linear_at(origin, step, j as nat))),
                decreases r@.len() - i,
            {
                out.push(r[i].wrapping_add(prediction));
                prediction = prediction.wrapping_add(step);
                i = i + 1;
            }
            out
        },
        Predictor::Reference => {
            let mut out: Vec<i64> = Vec::new();
            let mut i: usize = 0;
            while i < r.len()
                invariant
                    i <= r@.len() <= refs@.len(),
                    out@ =~= Seq::new(i as nat, |j: int| i64_specs::wrapping_add(r@[j], refs@[j])),
                decreases r@.len() - i,
            {
                out.push(r[i].wrapping_add(refs[i]));
                i = i + 1;
            }
            out
        },
    }
}

/// The packed bytes of a column: stored as is, or LZ4-compressed to exactly `expanded` bytes.
pub open spec fn column_packed(payload: Seq<u8>, compressed: bool, expanded: nat) -> Result<Seq<u8>, FormatError> {
    if compressed {
        match lz4_decoded(payload) {
            None => Err(FormatError::Decompression),
            Some(raw) => if raw.len() > expanded {
                Err(FormatError::Decompression)
            } else if raw.len() != expanded {
                Err(FormatError::ExpandedLengthMismatch)
            } else {
                Ok(raw)
            },
        }
    } else if payload.len() != expanded {
        Err(FormatError::ExpandedLengthMismatch)
    } else {
        Ok(payload)
    }
}

/// The most packed bytes that `rows` values may take: 1025 bytes per group of 128.
pub open spec fn expanded_bound(rows: nat) -> nat {
    ((rows + 127) / 128) * 1025
}

/// One column entry of an adaptive block: which column, its restored values and how many
/// stored bytes it takes, or the first check that it fails.
pub open spec fn adaptive_column(input: Seq<u8>, index: nat, cols: nat, rows: nat, pos: int, values: Seq<Seq<i64>>, seen: Seq<bool>) -> Result<(nat, Seq<i64>, nat), FormatError> {
    let d: int = 16 + 44 * index as int;
    let end = input.len() - 4;
    let column = input[d] as nat;
    let reference = input[d + 2] as nat;
    let compressed = input[d + 3];
    let origin = u64_at(input, d + 4) as i64;
    let step = u64_at(input, d + 12) as i64;
    let base = u64_at(input, d + 20) as i64;
    let scale = u64_at(input, d + 28);
    let expanded = u32_at(input, d + 36) as nat;
    let stored = u32_at(input, d + 40) as nat;
    if !(column < cols && !seen[column as int]) {
        Err(FormatError::InvalidColumn)
    } else if predictor_of_id(input[d + 1]) is None {
        Err(FormatError::UnknownPredictor)
    } else {
        let p = predictor_of_id(input[d + 1]).unwrap();
        if p == Predictor::Reference && !(reference < cols && seen[reference as int]) {
            Err(FormatError::InvalidReference)
        } else if p != Predictor::Reference && reference != 255 {
            Err(FormatError::UnexpectedReference)
        } else if compressed > input[8] {
            Err(FormatError::InvalidCompressionFlag)
        } else if !(expanded <= expanded_bound(rows) && stored <= end - pos) {
            Err(FormatError::InvalidColumnLengths)
        } else {
            match column_packed(input.subrange(pos, pos + stored), compressed == 1, expanded) {
                Err(e) => Err(e),
                Ok(packed) => match unpacked(packed, rows, base, scale) {
                    Err(e) => Err(e),
                    Ok(r) => {
                        let refs = if p == Predictor::Reference { values[reference as int] } else { Seq::empty() };
                        let restored = predicted(p, r, origin, step, refs);
                        if p == Predictor::Delta && restored.len() > 0 && restored[0] != origin {
                            Err(FormatError::InvalidInitialDelta)
                        } else {
                            Ok((column, restored, stored))
                        }
                    },
                },
            }
        }
    }
}

/// Decodes the column entries from `index` on, with the stored bytes of the next at `pos`.
pub open spec fn adaptive_columns(input: Seq<u8>, index: nat, cols: nat, rows: nat, pos: int, values: Seq<Seq<i64>>, seen: Seq<bool>) -> Result<(Seq<Seq<i64>>, int), FormatError>
    decreases cols - index,
{
    if index >= cols {
        Ok((values, pos))
    } else {
        match adaptive_column(input, index, cols, rows, pos, values, seen) {
            Err(e) => Err(e),
            Ok((column, restored, stored)) => adaptive_columns(input, index + 1, cols, rows, pos + stored,
                values.update(column as int, restored), seen.update(column as int, true)),
        }
    }
}

/// What an adaptive block decodes to: its schema byte and columns, or the first check it fails.
pub open spec fn adaptive_decoded(input: Seq<u8>) -> Result<(u8, Seq<Seq<i64>>), FormatError> {
    if input.len() < 20 || input.len() > ADAPTIVE_MAX_BYTES {
        Err(FormatError::InvalidBlockSize)
    } else if input.subrange(0, 8) != adaptive_magic() || input[8] > 1 {
        Err(FormatError::BadMagic)
    } else if crc32_of(input.subrange(0, input.len() - 4)) != u32_at(input, input.len() - 4) {
        Err(FormatError::ChecksumMismatch)
    } else {
        let cols = u16_at(input, 10) as nat;
        let rows = u32_at(input, 12) as nat;
        if !(1 <= cols <= 64 && rows <= MAX_ROWS && 16 + 44 * cols <= input.len() - 4) {
            Err(FormatError::InvalidDimensions)
        } else {
            match adaptive_columns(input, 0, cols, rows, 16 + 44 * cols as int, Seq::new(cols, |i: int| Seq::<i64>::empty()),
                Seq::new(cols, |i: int| false)) {
                Err(e) => Err(e),
                Ok((values, pos)) => if pos != input.len() - 4 {
                    Err(FormatError::TrailingBlockBytes)
                } else {
                    Ok((input[9], values))
                },
            }
        }
    }
}

/// Whether the eight bytes at `pos` are the adaptive magic.
fn has_adaptive_magic(input: &[u8]) -> (r: bool)
    requires
        8 <= input@.len(),
    ensures
        r == (input@.subrange(0, 8) == adaptive_magic()),
{
    let magic: [u8; 8] = [71u8, 81, 79, 65, 68, 80, 48, 50];
    let mut i: usize = 0;
    while i < 8
        invariant
            i <= 8 <= input@.len(),
            magic@ == adaptive_magic(),
            forall|j: int| 0 <= j < i ==> input@[j] == magic@[j],
        decreases 8 - i,
    {
        if input[i] != magic[i] {
            assert(input@.subrange(0, 8)[i as int] != adaptive_magic()[i as int]);
            return false;
        }
        i = i + 1;
    }
    assert(input@.subrange(0, 8) =~= adaptive_magic());
    true
}

/// The packed bytes of one column, decompressed into `scratch` where the entry says so.
pub(crate) fn packed_bytes(payload: &[u8], compressed: bool, expanded: usize, scratch: &mut Vec<u8>) -> (r: Result<Vec<u8>, FormatError>)
    ensures
        r matches Ok(v) ==> column_packed(payload@, compressed, expanded as nat) == Ok::<Seq<u8>, FormatError>(v@),
        r matches Err(e) ==> column_packed(payload@, compressed, expanded as nat) == Err::<Seq<u8>, FormatError>(e),
{
    if compressed {
        scratch.resize(expanded, 0);
        match lz4_decompress_into(payload, scratch) {
            Err(_) => Err(FormatError::Decompression),
            Ok(written) => {
                if written != expanded {
                    return Err(FormatError::ExpandedLengthMismatch);
                }
                assert(scratch@.subrange(0, written as int) =~= scratch@);
                let mut copy: Vec<u8> = Vec::new();
                copy.extend_from_slice(scratch.as_slice());
                assert(copy@ =~= scratch@);
                Ok(copy)
            },
        }
    } else {
        if payload.len() != expanded {
            return Err(FormatError::ExpandedLengthMismatch);
        }
        let mut copy: Vec<u8> = Vec::new();
        copy.extend_from_slice(payload);
        assert(copy@ =~= payload@);
        Ok(copy)
    }
}

/// Unpacking appends exactly the values still to read.
proof fn lemma_unpack_len(input: Seq<u8>, pos: int, remaining: nat, base: i64, scale: u64, acc: Seq<i64>)
    ensures
        unpack_from(input, pos, remaining, base, scale, acc) matches Ok((v, p)) ==> v.len() == acc.len() + remaining,
    decreases remaining,
{
    if remaining > 0 && 0 <= pos < input.len() {
        let width = input[pos];
        let p = pos + 1;
        let count = group_count(remaining);
        if width == 255 {
            lemma_unpack_len(input, p + 8 * count, (remaining - count) as nat, base, scale,
                acc + Seq::new(count, |k: int| quotient_value(u64_at(input, p + 8 * k), base, scale)));
        } else if width <= 32 && p + 16 * width <= input.len() {
            let ints = simd_integers(input.subrange(p, p + 16 * width), width);
            lemma_unpack_len(input, p + 16 * width, (remaining - count) as nat, base, scale,
                acc + Seq::new(count, |k: int| quotient_value(ints[k] as u64, base, scale)));
        }
    }
}

/// Decodes column entry `index`: which column it fills, its values and its stored length.
fn decode_column(
    input: &[u8],
    index: usize,
    cols: usize,
    rows: usize,
    pos: usize,
    values: &Vec<Vec<i64>>,
    seen: &Vec<bool>,
    scratch: &mut Vec<u8>,
) -> (r: Result<(usize, Vec<i64>, usize), FormatError>)
    requires
        20 <= input@.len(),
        index < cols <= 64,
        rows <= MAX_ROWS,
        16 + 44 * cols <= pos <= input@.len() - 4,
        values@.len() == cols,
        seen@.len() == cols,
        forall|c: int| 0 <= c < cols && #[trigger] seen@[c] ==> values@[c]@.len() == rows,
    ensures
        r matches Ok((column, restored, stored)) ==> adaptive_column(input@, index as nat, cols as nat, rows as nat,
            pos as int, values@.map_values(|v: Vec<i64>| v@), seen@) == Ok::<(nat, Seq<i64>, nat), FormatError>((
            column as nat, restored@, stored as nat)) && restored@.len() == rows,
        r matches Err(e) ==> adaptive_column(input@, index as nat, cols as nat, rows as nat, pos as int,
            values@.map_values(|v: Vec<i64>| v@), seen@) == Err::<(nat, Seq<i64>, nat), FormatError>(e),
{
    let ghost vals = values@.map_values(|v: Vec<i64>| v@);
    let end = input.len() - 4;
    let d = 16 + 44 * index;
    let column = input[d] as usize;
    if !(column < cols && !seen[column]) {
        return Err(FormatError::InvalidColumn);
    }
    let predictor = match input[d + 1] {
        0 => Predictor::Absolute,
        1 => Predictor::Delta,
        2 => Predictor::Linear,
        3 => Predictor::Reference,
        _ => {
            return Err(FormatError::UnknownPredictor);
        },
    };
    let reference = input[d + 2] as usize;
    if predictor == Predictor::Reference {
        if !(reference < cols && seen[reference]) {
            return Err(FormatError::InvalidReference);
        }
    } else if reference != 255 {
        return Err(FormatError::UnexpectedReference);
    }
    let compressed = input[d + 3];
    if compressed > input[8] {
        return Err(FormatError::InvalidCompressionFlag);
    }
    let origin = read_u64(input, d + 4) as i64;
    let step = read_u64(input, d + 12) as i64;
    let base = read_u64(input, d + 20) as i64;
    let scale = read_u64(input, d + 28);
    let expanded = read_u32(input, d + 36) as usize;
    let stored = read_u32(input, d + 40) as usize;
    if !(expanded <= ((rows + 127) / 128) * 1025 && stored <= end - pos) {
        return Err(FormatError::InvalidColumnLengths);
    }
    let packed = match packed_bytes(&input[pos..pos + stored], compressed == 1, expanded, scratch) {
        Ok(packed) => packed,
        Err(e) => {
            return Err(e);
        },
    };
    let residuals = match unpack(packed.as_slice(), rows, base, scale) {
        Ok(residuals) => residuals,
        Err(e) => {
            return Err(e);
        },
    };
    proof {
        lemma_unpack_len(packed@, 0, rows as nat, base, scale, Seq::empty());
    }
    let empty: Vec<i64> = Vec::new();
    let refs = if predictor == Predictor::Reference { &values[reference] } else { &empty };
    assert(refs@ == (if predictor == Predictor::Reference { vals[reference as int] } else { Seq::<i64>::empty() }));
    let restored = restore_values(predictor, residuals, origin, step, refs);
    if predictor == Predictor::Delta && restored.len() > 0 && restored[0] != origin {
        return Err(FormatError::InvalidInitialDelta);
    }
    Ok((column, restored, stored))
}

/// Decodes an adaptive block into its schema byte and columns, reusing `scratch` for
/// decompression. What the call leaves in `scratch` is not stated.
#[verifier::loop_isolation(false)]
pub fn decode_values_with_scratch(input: &[u8], scratch: &mut Vec<u8>) -> (r: Result<(u8, Vec<Vec<i64>>), FormatError>)
    ensures
        r matches Ok((kind, values)) ==> adaptive_decoded(input@) == Ok::<(u8, Seq<Seq<i64>>), FormatError>((
            kind, values@.map_values(|v: Vec<i64>| v@))),
        r matches Err(e) ==> adaptive_decoded(input@) == Err::<(u8, Seq<Seq<i64>>), FormatError>(e),
{
    let n = input.len();
    if n < 20 || n > ADAPTIVE_MAX_BYTES {
        return Err(FormatError::InvalidBlockSize);
    }
    if !has_adaptive_magic(input) || input[8] > 1 {
        return Err(FormatError::BadMagic);
    }
    let end = n - 4;
    let expected = read_u32(input, end);
    if crc32(&input[0..end]) != expected {
        return Err(FormatError::ChecksumMismatch);
    }
    let kind = input[9];
    let cols = read_u16(input, 10) as usize;
    let rows = read_u32(input, 12) as usize;
    if !(1 <= cols && cols <= 64 && rows <= MAX_ROWS && 16 + 44 * cols <= end) {
        return Err(FormatError::InvalidDimensions);
    }
    let mut values: Vec<Vec<i64>> = Vec::new();
    let mut seen: Vec<bool> = Vec::new();
    let mut i: usize = 0;
    while i < cols
        invariant
            i <= cols,
            values@.map_values(|v: Vec<i64>| v@) =~= Seq::new(i as nat, |j: int| Seq::<i64>::empty()),
            seen@ =~= Seq::new(i as nat, |j: int| false),
        decreases cols - i,
    {
        let ghost before = values@.map_values(|v: Vec<i64>| v@);
        let fresh: Vec<i64> = Vec::new();
        values.push(fresh);
        seen.push(false);
        proof {
            assert(values@.map_values(|v: Vec<i64>| v@) =~= before.push(Seq::<i64>::empty()));
        }
        i = i + 1;
    }
    let mut pos: usize = 16 + 44 * cols;
    let mut index: usize = 0;
    while index < cols
        invariant
            n == input@.len(),
            end == n - 4,
            1 <= cols <= 64,
            rows <= MAX_ROWS,
            index <= cols,
            16 + 44 * cols <= pos <= end,
            values@.len() == cols,
            seen@.len() == cols,
            forall|c: int| 0 <= c < cols && #[trigger] seen@[c] ==> values@[c]@.len() == rows,
            adaptive_columns(input@, 0, cols as nat, rows as nat, 16 + 44 * cols as int,
                Seq::new(cols as nat, |j: int| Seq::<i64>::empty()), Seq::new(cols as nat, |j: int| false))
                == adaptive_columns(input@, index as nat, cols as nat, rows as nat, pos as int,
                values@.map_values(|v: Vec<i64>| v@), seen@),
        decreases cols - index,
    {
        let (column, restored, stored) = match decode_column(input, index, cols, rows, pos, &values, &seen, scratch) {
            Ok(t) => t,
            Err(e) => {
                return Err(e);
            },
        };
        let ghost before = values@.map_values(|v: Vec<i64>| v@);
        values.set(column, restored);
        seen.set(column, true);
        proof {
            assert(values@.map_values(|v: Vec<i64>| v@) =~= before.update(column as int, restored@));
        }
        pos = pos + stored;
        index = index + 1;
    }
    if pos != end {
        return Err(FormatError::TrailingBlockBytes);
    }
    Ok((kind, values))
}

pub fn decode_values(input: &[u8]) -> (r: Result<(u8, Vec<Vec<i64>>), FormatError>)
    ensures
        r matches Ok((kind, values)) ==> adaptive_decoded(input@) == Ok::<(u8, Seq<Seq<i64>>), FormatError>((
            kind, values@.map_values(|v: Vec<i64>| v@))),
        r matches Err(e) ==> adaptive_decoded(input@) == Err::<(u8, Seq<Seq<i64>>), FormatError>(e),
{
    let mut scratch: Vec<u8> = Vec::new();
    decode_values_with_scratch(input, &mut scratch)
}

/// What an adaptive block of the fixed schema decodes to.
pub open spec fn adaptive_block_decoded(input: Seq<u8>) -> Result<(Kind, Seq<Seq<i64>>), FormatError> {
    match adaptive_decoded(input) {
        Err(e) => Err(e),
        Ok((id, values)) => if kind_of_id(id) is None {
            Err(FormatError::UnknownSchema)
        } else if columns_error(values) is Some {
            Err(columns_error(values).unwrap())
        } else {
            Ok((kind_of_id(id).unwrap(), values))
        },
    }
}

pub fn decode(input: &[u8]) -> (r: Result<Columns, FormatError>)
    ensures
        r matches Ok(c) ==> adaptive_block_decoded(input@) == Ok::<(Kind, Seq<Seq<i64>>), FormatError>((c.kind, c.cols())),
        r matches Err(e) ==> adaptive_block_decoded(input@) == Err::<(Kind, Seq<Seq<i64>>), FormatError>(e),
{
    let (id, values) = match decode_values(input) {
        Ok(t) => t,
        Err(e) => {
            return Err(e);
        },
    };
    let kind = match Kind::from_id(id) {
        Ok(kind) => kind,
        Err(e) => {
            return Err(e);
        },
    };
    let result = Columns { kind, values };
    match result.validate() {
        Err(e) => Err(e),
        Ok(()) => Ok(result),
    }
}

pub fn framing_bytes() -> (r: usize)
    ensures
        r == 16 + 44 * 8 + 4,
{
    16 + 44 * 8 + 4
}

/// Euclid's greatest common divisor.
pub open spec fn gcd_of(a: nat, b: nat) -> nat
    decreases b,
{
    if b == 0 {
        a
    } else {
        gcd_of(b, a % b)
    }
}

fn gcd(a: u64, b: u64) -> (r: u64)
    ensures
        r == gcd_of(a as nat, b as nat),
{
    let ghost target = gcd_of(a as nat, b as nat);
    let mut x = a;
    let mut y = b;
    while y != 0
        invariant
            gcd_of(x as nat, y as nat) == target,
        decreases y,
    {
        let next = x % y;
        x = y;
        y = next;
    }
    x
}

/// What a column is stored as under a predictor: the values themselves, their differences
/// (the first zero), their distance from a line, or their difference from a reference column.
pub open spec fn residuals_of(input: Seq<i64>, reference: Seq<i64>, p: Predictor, origin: i64, step: i64) -> Seq<i64> {
    match p {
        Predictor::Absolute => input,
        Predictor::Delta => Seq::new(input.len(), |i: int| if i == 0 { 0i64 } else { i64_specs::wrapping_sub(input[i], input[i - 1]) }),
        Predictor::Linear => Seq::new(input.len(), |i: int| i64_specs::wrapping_sub(i64_specs::wrapping_sub(input[i], origin),
            i64_specs::wrapping_mul(step, i as i64))),
        Predictor::Reference => Seq::new(
            if input.len() < reference.len() { input.len() } else { reference.len() },
            |i: int| i64_specs::wrapping_sub(input[i], reference[i]),
        ),
    }
}

fn residuals(input: &[i64], reference: &[i64], p: Predictor, origin: i64, step: i64) -> (r: Vec<i64>)
    requires
        input@.len() <= MAX_ROWS,
    ensures
        r@ == residuals_of(input@, reference@, p, origin, step),
{
    let mut out: Vec<i64> = Vec::new();
    let len = if p == Predictor::Reference && reference.len() < input.len() { reference.len() } else { input.len() };
    let mut i: usize = 0;
    while i < len
        invariant
            len <= input@.len() <= MAX_ROWS,
            p == Predictor::Reference ==> len <= reference@.len(),
            len == residuals_of(input@, reference@, p, origin, step).len(),
            i <= len,
            out@ =~= residuals_of(input@, reference@, p, origin, step).take(i as int),
        decreases len - i,
    {
        let v = match p {
            Predictor::Absolute => input[i],
            Predictor::Delta => if i == 0 { 0i64 } else { input[i].wrapping_sub(input[i - 1]) },
            Predictor::Linear => input[i].wrapping_sub(origin).wrapping_sub(step.wrapping_mul(i as i64)),
            Predictor::Reference => input[i].wrapping_sub(reference[i]),
        };
        out.push(v);
        i = i + 1;
    }
    assert(residuals_of(input@, reference@, p, origin, step).take(len as int) =~= residuals_of(input@, reference@, p, origin, step));
    out
}

/// The smallest value, or zero for none.
pub open spec fn min_of(values: Seq<i64>) -> i64
    decreases values.len(),
{
    if values.len() == 0 {
        0
    } else if values.len() == 1 {
        values[0]
    } else {
        let m = min_of(values.drop_last());
        if values.last() < m {
            values.last()
        } else {
            m
        }
    }
}

/// How far a value lies above the base, as an unsigned quantity.
pub open spec fn offset_of(v: i64, base: i64) -> u64 {
    i64_specs::wrapping_sub(v, base) as u64
}

/// The running common divisor and largest offset over the first `n` values.
pub open spec fn scale_and_max(values: Seq<i64>, base: i64, n: nat) -> (u64, u64)
    decreases n,
{
    if n == 0 {
        (0, 0)
    } else {
        let (scale, max) = scale_and_max(values, base, (n - 1) as nat);
        let offset = offset_of(values[n - 1], base);
        (
            if scale != 1 { gcd_of(scale as nat, offset as nat) as u64 } else { scale },
            if offset > max { offset } else { max },
        )
    }
}

/// The base, scale and packed width of a column: its minimum, the common divisor of its
/// offsets (at least one) and the bits of its largest quotient.
pub open spec fn parameters_of(values: Seq<i64>) -> (i64, u64, u32) {
    let base = min_of(values);
    let (s, max) = scale_and_max(values, base, values.len());
    let scale: u64 = if s < 1 { 1 } else { s };
    (base, scale, (64 - u64_leading_zeros((max / scale) as u64)) as u32)
}

/// The minimum of a column, the common divisor of its offsets (at least one) and its largest offset.
pub open spec fn offset_summary(values: Seq<i64>) -> (i64, u64, u64) {
    let base = min_of(values);
    let (s, max) = scale_and_max(values, base, values.len());
    (base, if s < 1 { 1 } else { s }, max)
}

pub(crate) fn summarize_offsets(values: &[i64]) -> (r: (i64, u64, u64))
    ensures
        r == offset_summary(values@),
{
    let n = values.len();
    let mut base: i64 = 0;
    if n > 0 {
        base = values[0];
        let mut i: usize = 1;
        while i < n
            invariant
                1 <= i <= n == values@.len(),
                base == min_of(values@.take(i as int)),
            decreases n - i,
        {
            proof {
                assert(values@.take(i + 1).drop_last() =~= values@.take(i as int));
            }
            if values[i] < base {
                base = values[i];
            }
            i = i + 1;
        }
        assert(values@.take(n as int) =~= values@);
    }
    let mut scale: u64 = 0;
    let mut max: u64 = 0;
    let mut i: usize = 0;
    while i < n
        invariant
            i <= n == values@.len(),
            base == min_of(values@),
            (scale, max) == scale_and_max(values@, base, i as nat),
        decreases n - i,
    {
        let offset = values[i].wrapping_sub(base) as u64;
        if offset > max {
            max = offset;
        }
        if scale != 1 {
            scale = gcd(scale, offset);
        }
        i = i + 1;
    }
    let scale = if scale < 1 { 1 } else { scale };
    (base, scale, max)
}

fn parameters(values: &[i64]) -> (r: (i64, u64, u32))
    ensures
        r == parameters_of(values@),
{
    let (base, scale, max) = summarize_offsets(values);
    (base, scale, 64 - (max / scale).leading_zeros())
}

/// The packed width that a column's parameters give.
fn width(values: &[i64]) -> (r: u32)
    ensures
        r == parameters_of(values@).2,
        r <= 64,
{
    let (_, _, w) = parameters(values);
    w
}

/// The rows that prediction is chosen on: at most the first 1024.
pub open spec fn sample_len(len: nat) -> nat {
    if len < 1024 {
        len
    } else {
        1024
    }
}

/// The choice after trying the first `k` earlier columns as references: a reference is
/// taken only where its width beats the best so far.
pub open spec fn reference_choice(
    data: Seq<Seq<i64>>,
    sample: Seq<i64>,
    origin: i64,
    step: i64,
    previous: Seq<usize>,
    k: nat,
    init: (Predictor, u8, int),
) -> (Predictor, u8, int)
    decreases k,
{
    if k == 0 {
        init
    } else {
        let (p, r, best) = reference_choice(data, sample, origin, step, previous, (k - 1) as nat, init);
        let reference = previous[k - 1];
        let score = parameters_of(residuals_of(sample, data[reference as int].take(sample.len() as int),
            Predictor::Reference, origin, step)).2 as int;
        if score < best {
            (Predictor::Reference, reference as u8, score)
        } else {
            (p, r, best)
        }
    }
}

/// The predictor, reference, origin and step chosen for a column: whichever of absolute,
/// delta (one bit dearer), linear and reference to an earlier column packs its sample narrowest,
/// the earlier candidate on ties.
pub open spec fn select_of(data: Seq<Seq<i64>>, column: int, previous: Seq<usize>) -> (Predictor, u8, i64, i64) {
    let values = data[column];
    let sample = values.take(sample_len(values.len()) as int);
    let origin = if values.len() > 0 { values[0] } else { 0i64 };
    let step = i64_specs::wrapping_sub(if values.len() > 1 { values[1] } else { origin }, origin);
    let absolute = parameters_of(sample).2 as int;
    let delta = parameters_of(residuals_of(sample, Seq::empty(), Predictor::Delta, origin, step)).2 + 1;
    let first: (Predictor, int) = if delta < absolute { (Predictor::Delta, delta) } else { (Predictor::Absolute, absolute) };
    let linear = parameters_of(residuals_of(sample, Seq::empty(), Predictor::Linear, origin, step)).2 as int;
    let second: (Predictor, int) = if linear < first.1 { (Predictor::Linear, linear) } else { first };
    let (p, r, _) = reference_choice(data, sample, origin, step, previous, previous.len(),
        (second.0, 255u8, second.1));
    (p, r, origin, step)
}

fn select(data: &Vec<Vec<i64>>, column: usize, order: &Vec<usize>, count: usize) -> (r: (Predictor, u8, i64, i64))
    requires
        column < data@.len(),
        count <= order@.len(),
        forall|i: int| 0 <= i < data@.len() ==> (#[trigger] data@[i])@.len() == data@[column as int]@.len(),
        data@[column as int]@.len() <= MAX_ROWS,
        forall|i: int| 0 <= i < order@.len() ==> #[trigger] order@[i] < data@.len() && order@[i] < 256,
    ensures
        r == select_of(data@.map_values(|v: Vec<i64>| v@), column as int, order@.take(count as int)),
{
    let ghost cols = data@.map_values(|v: Vec<i64>| v@);
    let values = data[column].as_slice();
    let n = if values.len() < 1024 { values.len() } else { 1024 };
    let sample = &values[0..n];
    assert(sample@ == cols[column as int].take(sample_len(cols[column as int].len()) as int));
    let origin = if values.len() > 0 { values[0] } else { 0i64 };
    let step = (if values.len() > 1 { values[1] } else { origin }).wrapping_sub(origin);
    let none: Vec<i64> = Vec::new();
    let mut predictor = Predictor::Absolute;
    let mut best = width(sample);
    let delta = width(residuals(sample, none.as_slice(), Predictor::Delta, origin, step).as_slice()) + 1;
    if delta < best {
        best = delta;
        predictor = Predictor::Delta;
    }
    let linear = width(residuals(sample, none.as_slice(), Predictor::Linear, origin, step).as_slice());
    if linear < best {
        best = linear;
        predictor = Predictor::Linear;
    }
    let mut reference: u8 = 255;
    let ghost init = (predictor, 255u8, best as int);
    let ghost previous = order@.take(count as int);
    let mut k: usize = 0;
    while k < count
        invariant
            k <= count <= order@.len(),
            n == sample@.len() <= MAX_ROWS,
            previous == order@.take(count as int),
            cols == data@.map_values(|v: Vec<i64>| v@),
            forall|i: int| 0 <= i < data@.len() ==> (#[trigger] data@[i])@.len() == data@[column as int]@.len(),
            n <= data@[column as int]@.len(),
            forall|i: int| 0 <= i < order@.len() ==> #[trigger] order@[i] < data@.len() && order@[i] < 256,
            best <= 64,
            (predictor, reference, best as int) == reference_choice(cols, sample@, origin, step, previous, k as nat, init),
        decreases count - k,
    {
        let other = order[k];
        let others = &data[other].as_slice()[0..n];
        assert(others@ == cols[other as int].take(sample@.len() as int));
        let score = width(residuals(sample, others, Predictor::Reference, origin, step).as_slice());
        if score < best {
            best = score;
            predictor = Predictor::Reference;
            reference = other as u8;
        }
        proof {
            assert(previous[k as int] == other);
        }
        k = k + 1;
    }
    (predictor, reference, origin, step)
}

/// The quotients of a group's offsets by the scale.
pub open spec fn quotients_of(group: Seq<i64>, base: i64, scale: u64) -> Seq<u64> {
    Seq::new(group.len(), |i: int| if scale == 1 { offset_of(group[i], base) } else { offset_of(group[i], base) / scale })
}

/// The 128 SIMD slots of a group: its quotients cut to 32 bits, then zeros.
pub open spec fn simd_slots(q: Seq<u64>) -> Seq<u32> {
    Seq::new(128, |i: int| if i < q.len() { q[i] as u32 } else { 0u32 })
}

/// The little-endian bytes of each word in turn.
pub open spec fn le64_words(q: Seq<u64>) -> Seq<u8>
    decreases q.len(),
{
    if q.len() == 0 {
        Seq::empty()
    } else {
        le64_words(q.drop_last()) + le64(q.last())
    }
}

/// A packed group: width 255 and full 64-bit quotients where one exceeds 32 bits, else the
/// SIMD width of its slots and, for a nonzero width, their SIMD packing.
pub open spec fn packed_group(group: Seq<i64>, base: i64, scale: u64) -> Seq<u8> {
    let q = quotients_of(group, base, scale);
    if or_all(q) > u32::MAX {
        seq![255u8] + le64_words(q)
    } else {
        let ints = simd_slots(q);
        let w = bit_width(max_prefix(ints, 128));
        seq![w as u8] + if w != 0 { bitpacked(ints, w as u8) } else { Seq::empty() }
    }
}

/// The packed groups of up to 128 values each, from value `i` on.
pub open spec fn packed_from(values: Seq<i64>, i: int, base: i64, scale: u64) -> Seq<u8>
    decreases values.len() - i,
{
    if i < 0 || i >= values.len() {
        Seq::empty()
    } else {
        let j = if i + 128 < values.len() { i + 128 } else { values.len() as int };
        packed_group(values.subrange(i, j), base, scale) + packed_from(values, j, base, scale)
    }
}

/// The SIMD packing of a group, where it has one, takes 16 bytes per bit of width and
/// unpacks to the group's slots.
pub open spec fn group_unpacks(group: Seq<i64>, base: i64, scale: u64) -> bool {
    let q = quotients_of(group, base, scale);
    let ints = simd_slots(q);
    let w = bit_width(max_prefix(ints, 128));
    or_all(q) > u32::MAX || w == 0 || (bitpacked(ints, w as u8).len() == 16 * w && bitunpacked(
        bitpacked(ints, w as u8),
        w as u8,
    ) == ints)
}

/// Every group from value `i` on unpacks as `group_unpacks` says.
pub open spec fn groups_unpack(values: Seq<i64>, i: int, base: i64, scale: u64) -> bool
    decreases values.len() - i,
{
    if i < 0 || i >= values.len() {
        true
    } else {
        let j = if i + 128 < values.len() { i + 128 } else { values.len() as int };
        group_unpacks(values.subrange(i, j), base, scale) && groups_unpack(values, j, base, scale)
    }
}

pub(crate) proof fn lemma_bit_width_le(v: nat, k: nat)
    requires
        v < pow2(k),
    ensures
        bit_width(v) <= k,
    decreases v,
{
    if v > 0 {
        if k == 0 {
            vstd::arithmetic::power2::lemma2_to64();
        } else {
            vstd::arithmetic::power2::lemma_pow2_unfold(k);
            lemma_bit_width_le(v / 2, (k - 1) as nat);
        }
    }
}

pub(crate) proof fn lemma_max_prefix_u32(values: Seq<u32>, n: int)
    ensures
        max_prefix(values, n) <= u32::MAX,
    decreases n,
{
    if n > 0 {
        lemma_max_prefix_u32(values, n - 1);
    }
}

/// Appends the packed form of one group of at most 128 values.
fn pack_group(values: &[i64], start: usize, end: usize, base: i64, scale: u64, out: &mut Vec<u8>)
    requires
        start < end <= values@.len(),
        end - start <= 128,
        scale >= 1,
    ensures
        final(out)@ == old(out)@ + packed_group(values@.subrange(start as int, end as int), base, scale),
        group_unpacks(values@.subrange(start as int, end as int), base, scale),
{
    let ghost group = values@.subrange(start as int, end as int);
    let ghost q = quotients_of(group, base, scale);
    let count = end - start;
    let mut quotients: Vec<u64> = Vec::new();
    let mut integers = [0u32; 128];
    let mut max: u64 = 0;
    let mut i: usize = 0;
    while i < count
        invariant
            count == end - start <= 128,
            start + count <= values@.len(),
            scale >= 1,
            group == values@.subrange(start as int, end as int),
            q == quotients_of(group, base, scale),
            i <= count,
            quotients@ == q.take(i as int),
            max == or_all(q.take(i as int)),
            integers@ == Seq::new(128, |j: int| if j < i { q[j] as u32 } else { 0u32 }),
        decreases count - i,
    {
        let offset = values[start + i].wrapping_sub(base) as u64;
        let v = if scale == 1 { offset } else { offset / scale };
        assert(v == q[i as int]);
        quotients.push(v);
        integers.set(i, v as u32);
        max = max | v;
        proof {
            assert(q.take(i + 1).drop_last() =~= q.take(i as int));
            assert(integers@ =~= Seq::new(128, |j: int| if j < i + 1 { q[j] as u32 } else { 0u32 }));
        }
        i = i + 1;
    }
    assert(q.take(count as int) =~= q);
    assert(integers@ =~= simd_slots(q));
    if max > 0xffff_ffffu64 {
        out.push(255u8);
        let ghost head = out@;
        let mut k: usize = 0;
        while k < count
            invariant
                k <= count == quotients@.len(),
                quotients@ == q,
                out@ == head + le64_words(q.take(k as int)),
            decreases count - k,
        {
            push_u64(out, quotients[k]);
            proof {
                assert(q.take(k + 1).drop_last() =~= q.take(k as int));
            }
            k = k + 1;
        }
        assert(q.take(count as int) =~= q);
        assert(final(out)@ =~= old(out)@ + packed_group(group, base, scale));
    } else {
        let width = bitpack_num_bits(&integers);
        proof {
            lemma_max_prefix_u32(integers@, 128);
            vstd::arithmetic::power2::lemma2_to64();
            lemma_bit_width_le(max_prefix(integers@, 128), 32);
        }
        out.push(width);
        if width != 0 {
            let at = out.len();
            let ghost head = out@;
            let mut k: usize = 0;
            while k < 16 * (width as usize)
                invariant
                    width <= 32,
                    at == head.len(),
                    k <= 16 * width,
                    out@ =~= head + Seq::new(k as nat, |j: int| 0u8),
                decreases 16 * width - k,
            {
                out.push(0u8);
                k = k + 1;
            }
            let ghost filled = out@;
            bitpack_compress(&integers, out, at, width);
            assert(filled.subrange(at + 16 * width, filled.len() as int) =~= Seq::<u8>::empty());
            assert(out@.subrange(at as int, at + 16 * width) =~= bitpacked(integers@, width));
            assert(final(out)@ =~= old(out)@ + packed_group(group, base, scale));
        } else {
            assert(final(out)@ =~= old(out)@ + packed_group(group, base, scale));
        }
    }
}

fn pack(values: &[i64], base: i64, scale: u64) -> (out: Vec<u8>)
    requires
        scale >= 1,
    ensures
        out@ == packed_from(values@, 0, base, scale),
        groups_unpack(values@, 0, base, scale),
{
    let n = values.len();
    let mut out: Vec<u8> = Vec::new();
    let mut start: usize = 0;
    while start < n
        invariant
            n == values@.len(),
            start <= n,
            scale >= 1,
            packed_from(values@, 0, base, scale) == out@ + packed_from(values@, start as int, base, scale),
            groups_unpack(values@, start as int, base, scale) ==> groups_unpack(values@, 0, base, scale),
        decreases n - start,
    {
        let end = if n - start > 128 { start + 128 } else { n };
        let ghost before = out@;
        pack_group(values, start, end, base, scale, &mut out);
        proof {
            assert(packed_from(values@, start as int, base, scale)
                == packed_group(values@.subrange(start as int, end as int), base, scale) + packed_from(values@, end as int, base, scale));
            assert(before + (packed_group(values@.subrange(start as int, end as int), base, scale) + packed_from(values@, end as int, base, scale))
                =~= out@ + packed_from(values@, end as int, base, scale));
            if groups_unpack(values@, end as int, base, scale) {
                assert(groups_unpack(values@, start as int, base, scale));
            }
        }
        start = end;
    }
    assert(out@ + packed_from(values@, n as int, base, scale) =~= out@);
    out
}

/// The order in which columns are encoded: the first two swapped, the rest in place.
pub open spec fn order_at(cols: nat, i: int) -> int {
    if cols >= 2 && i == 0 {
        1
    } else if cols >= 2 && i == 1 {
        0
    } else {
        i
    }
}

pub open spec fn order_of(cols: nat) -> Seq<usize> {
    Seq::new(cols, |i: int| order_at(cols, i) as usize)
}

/// What the `index`-th encoded column is: which column, its predictor, reference, origin,
/// step, base and scale, and its packed residuals.
#[verifier::opaque]
pub open spec fn column_choice(values: Seq<Seq<i64>>, index: int) -> (int, Predictor, u8, i64, i64, i64, u64, Seq<u8>) {
    let cols = values.len();
    let column = order_at(cols, index);
    let (p, reference, origin, step) = select_of(values, column, order_of(cols).take(index));
    let res = column_residuals(values, index);
    let (base, scale, _) = parameters_of(res);
    (column, p, reference, origin, step, base, scale, packed_from(res, 0, base, scale))
}

/// The residuals of the `index`-th encoded column under the predictor chosen for it.
pub open spec fn column_residuals(values: Seq<Seq<i64>>, index: int) -> Seq<i64> {
    let cols = values.len();
    let column = order_at(cols, index);
    let (p, reference, origin, step) = select_of(values, column, order_of(cols).take(index));
    let refs = if reference == 255 { Seq::<i64>::empty() } else { values[reference as int] };
    residuals_of(values[column], refs, p, origin, step)
}

/// The `index`-th encoded column can be read back: its packed residuals unpack group by
/// group and, where compression is on, their LZ4 block decodes to them.
pub open spec fn column_restores(values: Seq<Seq<i64>>, use_lz4: bool, index: int) -> bool {
    let res = column_residuals(values, index);
    let (base, scale, _) = parameters_of(res);
    let packed = packed_from(res, 0, base, scale);
    groups_unpack(res, 0, base, scale) && (use_lz4 ==> lz4_decoded(lz4_compressed(packed)) == Some(packed))
}

/// Every encoded column can be read back.
pub open spec fn columns_restore(values: Seq<Seq<i64>>, use_lz4: bool) -> bool {
    forall|k: int| 0 <= k < values.len() ==> #[trigger] column_restores(values, use_lz4, k)
}

/// The directory entry and stored bytes of the `index`-th encoded column: the packed
/// residuals, or their LZ4 block where compression is on and makes them shorter.
pub open spec fn column_plan(values: Seq<Seq<i64>>, use_lz4: bool, index: int) -> (Seq<u8>, Seq<u8>) {
    let (column, p, reference, origin, step, base, scale, packed) = column_choice(values, index);
    let z = lz4_compressed(packed);
    let zipped = use_lz4 && z.len() < packed.len();
    let stored = if zipped { z } else { packed };
    (entry_bytes(column as u8, predictor_id(p), reference, zipped, origin, step, base, scale, packed.len() as u32,
        stored.len() as u32), stored)
}

/// A 44-byte column entry: column, predictor, reference and compression flag, then origin,
/// step, base and scale, then the packed and stored lengths, little-endian.
pub open spec fn entry_bytes(column: u8, predictor: u8, reference: u8, zipped: bool, origin: i64, step: i64, base: i64,
    scale: u64, packed_len: u32, stored_len: u32) -> Seq<u8> {
    seq![column, predictor, reference, if zipped { 1u8 } else { 0u8 }] + le64(origin as u64) + le64(step as u64)
        + le64(base as u64) + le64(scale) + le32(packed_len) + le32(stored_len)
}

/// The first sixteen bytes of an adaptive block.
pub open spec fn adaptive_header(use_lz4: bool, kind: u8, cols: u16, rows: u32) -> Seq<u8> {
    adaptive_magic() + seq![if use_lz4 { 1u8 } else { 0u8 }, kind] + le16(cols) + le32(rows)
}

fn push_entry(entries: &mut Vec<u8>, column: u8, predictor: u8, reference: u8, zipped: bool, origin: i64, step: i64,
    base: i64, scale: u64, packed_len: u32, stored_len: u32)
    ensures
        final(entries)@ == old(entries)@ + entry_bytes(column, predictor, reference, zipped, origin, step, base, scale,
            packed_len, stored_len),
{
    entries.push(column);
    entries.push(predictor);
    entries.push(reference);
    entries.push(if zipped { 1u8 } else { 0u8 });
    push_u64(entries, origin as u64);
    push_u64(entries, step as u64);
    push_u64(entries, base as u64);
    push_u64(entries, scale);
    push_u32(entries, packed_len);
    push_u32(entries, stored_len);
    assert(final(entries)@ =~= old(entries)@ + entry_bytes(column, predictor, reference, zipped, origin, step, base, scale,
        packed_len, stored_len));
}

fn push_header(out: &mut Vec<u8>, use_lz4: bool, kind: u8, cols: u16, rows: u32)
    ensures
        final(out)@ == old(out)@ + adaptive_header(use_lz4, kind, cols, rows),
{
    let magic: [u8; 8] = [71u8, 81, 79, 65, 68, 80, 48, 50];
    let ghost start = out@;
    let mut k: usize = 0;
    while k < 8
        invariant
            k <= 8,
            magic@ == adaptive_magic(),
            out@ =~= start + adaptive_magic().take(k as int),
        decreases 8 - k,
    {
        out.push(magic[k]);
        k = k + 1;
    }
    out.push(if use_lz4 { 1u8 } else { 0u8 });
    out.push(kind);
    push_u16(out, cols);
    push_u32(out, rows);
    assert(final(out)@ =~= old(out)@ + adaptive_header(use_lz4, kind, cols, rows));
}

/// The directory entries of the first `k` encoded columns.
pub open spec fn plan_entries(values: Seq<Seq<i64>>, use_lz4: bool, k: nat) -> Seq<u8>
    decreases k,
{
    if k == 0 {
        Seq::empty()
    } else {
        plan_entries(values, use_lz4, (k - 1) as nat) + column_plan(values, use_lz4, k - 1).0
    }
}

/// The stored bytes of the first `k` encoded columns.
pub open spec fn plan_payload(values: Seq<Seq<i64>>, use_lz4: bool, k: nat) -> Seq<u8>
    decreases k,
{
    if k == 0 {
        Seq::empty()
    } else {
        plan_payload(values, use_lz4, (k - 1) as nat) + column_plan(values, use_lz4, k - 1).1
    }
}

/// Too many rows, or a column whose length differs from the first.
pub open spec fn rows_invalid(values: Seq<Seq<i64>>) -> bool {
    values[0].len() > MAX_ROWS || exists|i: int| 0 <= i < values.len() && #[trigger] values[i].len() != values[0].len()
}

/// An adaptive block of any one to sixty-four columns: magic, compression flag, schema byte,
/// column and row counts, a 44-byte entry per column, the stored columns and a CRC-32.
pub open spec fn adaptive_encoded(values: Seq<Seq<i64>>, use_lz4: bool, kind: u8) -> Result<Seq<u8>, FormatError> {
    let cols = values.len();
    if !(1 <= cols <= 64) {
        Err(FormatError::InvalidColumns)
    } else if rows_invalid(values) {
        Err(FormatError::InvalidRows)
    } else {
        let body = adaptive_header(use_lz4, kind, cols as u16, values[0].len() as u32) + plan_entries(values, use_lz4, cols)
            + plan_payload(values, use_lz4, cols);
        Ok(body + le32(crc32_of(body)))
    }
}

proof fn lemma_reference_choice_range(
    data: Seq<Seq<i64>>,
    sample: Seq<i64>,
    origin: i64,
    step: i64,
    previous: Seq<usize>,
    k: nat,
    init: (Predictor, u8, int),
    bound: nat,
)
    requires
        init.1 == 255,
        init.0 != Predictor::Reference,
        bound <= 255,
        k <= previous.len(),
        forall|i: int| 0 <= i < previous.len() ==> #[trigger] previous[i] < bound,
    ensures
        ({
            let (p, r, _) = reference_choice(data, sample, origin, step, previous, k, init);
            (r == 255 && p != Predictor::Reference) || (r < bound && p == Predictor::Reference)
        }),
    decreases k,
{
    if k > 0 {
        lemma_reference_choice_range(data, sample, origin, step, previous, (k - 1) as nat, init, bound);
    }
}

/// Chooses the predictor of the `index`-th encoded column and packs its residuals.
fn choose_column(values: &Vec<Vec<i64>>, order: &Vec<usize>, index: usize) -> (r: (usize, Predictor, u8, i64, i64, i64, u64, Vec<u8>))
    requires
        1 <= values@.len() <= 64,
        !rows_invalid(values@.map_values(|v: Vec<i64>| v@)),
        index < values@.len(),
        order@ == order_of(values@.len()),
    ensures
        column_choice(values@.map_values(|v: Vec<i64>| v@), index as int) == (r.0 as int, r.1, r.2, r.3, r.4, r.5, r.6, r.7@),
        r.0 < values@.len(),
        groups_unpack(column_residuals(values@.map_values(|v: Vec<i64>| v@), index as int), 0, r.5, r.6),
{
    let ghost cols = values@.map_values(|v: Vec<i64>| v@);
    let column = order[index];
    assert forall|i: int| 0 <= i < values@.len() implies (#[trigger] values@[i])@.len() == values@[column as int]@.len() by {
        assert(cols[i].len() == cols[0].len());
        assert(cols[column as int].len() == cols[0].len());
    }
    let (predictor, reference, origin, step) = select(values, column, order, index);
    proof {
        let c = values@[column as int]@;
        let sample = c.take(sample_len(c.len()) as int);
        let o = if c.len() > 0 { c[0] } else { 0i64 };
        let st = i64_specs::wrapping_sub(if c.len() > 1 { c[1] } else { o }, o);
        let absolute = parameters_of(sample).2 as int;
        let delta = parameters_of(residuals_of(sample, Seq::empty(), Predictor::Delta, o, st)).2 + 1;
        let first: (Predictor, int) = if delta < absolute { (Predictor::Delta, delta) } else { (Predictor::Absolute, absolute) };
        let linear = parameters_of(residuals_of(sample, Seq::empty(), Predictor::Linear, o, st)).2 as int;
        let second: (Predictor, int) = if linear < first.1 { (Predictor::Linear, linear) } else { first };
        let previous = order@.take(index as int);
        lemma_reference_choice_range(cols, sample, o, st, previous, previous.len(), (second.0, 255u8, second.1), values@.len());
    }
    let none: Vec<i64> = Vec::new();
    let refs = if reference == 255 { none.as_slice() } else { values[reference as usize].as_slice() };
    let res = residuals(values[column].as_slice(), refs, predictor, origin, step);
    let (base, scale, _) = parameters(res.as_slice());
    let packed = pack(res.as_slice(), base, scale);
    proof {
        reveal(column_choice);
    }
    (column, predictor, reference, origin, step, base, scale, packed)
}

/// Stores the `index`-th encoded column: its entry into `entries`, its bytes into `payload`.
fn encode_column(values: &Vec<Vec<i64>>, use_lz4: bool, order: &Vec<usize>, index: usize, entries: &mut Vec<u8>, payload: &mut Vec<u8>)
    requires
        1 <= values@.len() <= 64,
        !rows_invalid(values@.map_values(|v: Vec<i64>| v@)),
        index < values@.len(),
        order@ == order_of(values@.len()),
    ensures
        final(entries)@ == old(entries)@ + column_plan(values@.map_values(|v: Vec<i64>| v@), use_lz4, index as int).0,
        final(payload)@ == old(payload)@ + column_plan(values@.map_values(|v: Vec<i64>| v@), use_lz4, index as int).1,
        column_restores(values@.map_values(|v: Vec<i64>| v@), use_lz4, index as int),
{
    let ghost cols = values@.map_values(|v: Vec<i64>| v@);
    let (column, predictor, reference, origin, step, base, scale, packed) = choose_column(values, order, index);
    proof {
        reveal(column_choice);
    }
    let compressed = if use_lz4 { crate::wrappers::lz4_compress(packed.as_slice()) } else { Vec::new() };
    let zipped = use_lz4 && compressed.len() < packed.len();
    let stored_len = if zipped { compressed.len() as u32 } else { packed.len() as u32 };
    push_entry(entries, column as u8, predictor.id(), reference, zipped, origin, step, base, scale, packed.len() as u32,
        stored_len);
    if zipped {
        payload.extend_from_slice(compressed.as_slice());
        assert(final(payload)@ =~= old(payload)@ + compressed@);
    } else {
        payload.extend_from_slice(packed.as_slice());
        assert(final(payload)@ =~= old(payload)@ + packed@);
    }
}

/// The order, entries and stored bytes of all columns.
fn encode_columns(values: &Vec<Vec<i64>>, use_lz4: bool) -> (r: (Vec<u8>, Vec<u8>))
    requires
        1 <= values@.len() <= 64,
        !rows_invalid(values@.map_values(|v: Vec<i64>| v@)),
    ensures
        r.0@ == plan_entries(values@.map_values(|v: Vec<i64>| v@), use_lz4, values@.len()),
        r.1@ == plan_payload(values@.map_values(|v: Vec<i64>| v@), use_lz4, values@.len()),
        columns_restore(values@.map_values(|v: Vec<i64>| v@), use_lz4),
{
    let ghost vals = values@.map_values(|v: Vec<i64>| v@);
    let cols = values.len();
    let mut order: Vec<usize> = Vec::new();
    let mut i: usize = 0;
    while i < cols
        invariant
            i <= cols <= 64,
            order@ =~= order_of(cols as nat).take(i as int),
        decreases cols - i,
    {
        let at = if cols >= 2 && i == 0 { 1 } else if cols >= 2 && i == 1 { 0 } else { i };
        order.push(at);
        i = i + 1;
    }
    assert(order_of(cols as nat).take(cols as int) =~= order_of(cols as nat));
    let mut entries: Vec<u8> = Vec::new();
    let mut payload: Vec<u8> = Vec::new();
    let mut index: usize = 0;
    while index < cols
        invariant
            1 <= cols <= 64,
            cols == values@.len(),
            vals == values@.map_values(|v: Vec<i64>| v@),
            !rows_invalid(vals),
            order@ == order_of(cols as nat),
            index <= cols,
            entries@ == plan_entries(vals, use_lz4, index as nat),
            payload@ == plan_payload(vals, use_lz4, index as nat),
            forall|k: int| 0 <= k < index ==> #[trigger] column_restores(vals, use_lz4, k),
        decreases cols - index,
    {
        encode_column(values, use_lz4, &order, index, &mut entries, &mut payload);
        index = index + 1;
    }
    (entries, payload)
}

/// Checks the column and row counts of columns to encode.
fn check_shape(values: &Vec<Vec<i64>>) -> (r: Result<(), FormatError>)
    ensures
        !(1 <= values@.len() <= 64) ==> r == Err::<(), FormatError>(FormatError::InvalidColumns),
        (1 <= values@.len() <= 64) && rows_invalid(values@.map_values(|v: Vec<i64>| v@)) ==> r == Err::<(), FormatError>(
            FormatError::InvalidRows),
        (1 <= values@.len() <= 64) && !rows_invalid(values@.map_values(|v: Vec<i64>| v@)) ==> r is Ok,
{
    let ghost vals = values@.map_values(|v: Vec<i64>| v@);
    let cols = values.len();
    if !(1 <= cols && cols <= 64) {
        return Err(FormatError::InvalidColumns);
    }
    let rows = values[0].len();
    assert(vals[0] == values@[0]@);
    if rows > MAX_ROWS {
        return Err(FormatError::InvalidRows);
    }
    let mut i: usize = 0;
    while i < cols
        invariant
            i <= cols == values@.len(),
            vals == values@.map_values(|v: Vec<i64>| v@),
            1 <= cols <= 64,
            rows == vals[0].len() <= MAX_ROWS,
            forall|j: int| 0 <= j < i ==> #[trigger] vals[j].len() == rows,
        decreases cols - i,
    {
        if values[i].len() != rows {
            assert(vals[i as int].len() != vals[0].len());
            return Err(FormatError::InvalidRows);
        }
        i = i + 1;
    }
    Ok(())
}

pub fn encode_values(values: &Vec<Vec<i64>>, use_lz4: bool, kind: u8) -> (r: Result<Vec<u8>, FormatError>)
    ensures
        r matches Ok(v) ==> adaptive_encoded(values@.map_values(|v: Vec<i64>| v@), use_lz4, kind)
            == Ok::<Seq<u8>, FormatError>(v@),
        r matches Err(e) ==> adaptive_encoded(values@.map_values(|v: Vec<i64>| v@), use_lz4, kind)
            == Err::<Seq<u8>, FormatError>(e),
        r is Ok ==> columns_restore(values@.map_values(|v: Vec<i64>| v@), use_lz4),
{
    let ghost vals = values@.map_values(|v: Vec<i64>| v@);
    match check_shape(values) {
        Err(e) => {
            return Err(e);
        },
        Ok(()) => {},
    }
    let cols = values.len();
    let rows = values[0].len();
    let (entries, payload) = encode_columns(values, use_lz4);
    let mut out: Vec<u8> = Vec::new();
    push_header(&mut out, use_lz4, kind, cols as u16, rows as u32);
    let ghost head = out@;
    out.extend_from_slice(entries.as_slice());
    assert(out@ =~= head + entries@);
    let ghost middle = out@;
    out.extend_from_slice(payload.as_slice());
    assert(out@ =~= middle + payload@);
    assert(vals[0] == values@[0]@);
    assert(out@ =~= adaptive_header(use_lz4, kind, cols as u16, vals[0].len() as u32) + plan_entries(vals, use_lz4, cols as nat)
        + plan_payload(vals, use_lz4, cols as nat));
    let checksum = crc32(out.as_slice());
    push_u32(&mut out, checksum);
    Ok(out)
}

/// What `encode` makes of columns of the fixed schema.
pub open spec fn adaptive_block(kind: Kind, cols: Seq<Seq<i64>>, use_lz4: bool) -> Result<Seq<u8>, FormatError> {
    if columns_error(cols) is Some {
        Err(columns_error(cols).unwrap())
    } else {
        adaptive_encoded(cols, use_lz4, crate::data::kind_id(kind))
    }
}

/// Encodes columns of the fixed schema. A block within the decoder's size limit decodes
/// back to the same kind and columns.
pub fn encode(data: &Columns, use_lz4: bool) -> (r: Result<Vec<u8>, FormatError>)
    ensures
        r matches Ok(v) ==> adaptive_block(data.kind, data.cols(), use_lz4) == Ok::<Seq<u8>, FormatError>(v@),
        r matches Err(e) ==> adaptive_block(data.kind, data.cols(), use_lz4) == Err::<Seq<u8>, FormatError>(e),
        r matches Ok(v) ==> (v@.len() <= ADAPTIVE_MAX_BYTES ==> adaptive_block_decoded(v@) == Ok::<
            (Kind, Seq<Seq<i64>>),
            FormatError,
        >((data.kind, data.cols()))),
{
    match data.validate() {
        Err(e) => {
            return Err(e);
        },
        Ok(()) => {},
    }
    assert(data.cols() == data.values@.map_values(|v: Vec<i64>| v@));
    let r = encode_values(&data.values, use_lz4, data.kind.id());
    proof {
        if r is Ok && r.unwrap()@.len() <= ADAPTIVE_MAX_BYTES {
            crate::adaptive_roundtrip::lemma_adaptive_roundtrip(data.kind, data.cols(), use_lz4);
        }
    }
    r
}

} // verus!
