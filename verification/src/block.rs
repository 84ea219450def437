//! Bounded experimental block framing and two lossless delta transforms.
use crate::data::{columns_error, kind_id, kind_of_id, le64_concat, rows_of, Columns, Kind, MAX_ROWS};
use crate::block_roundtrip::columns_decompress;
use crate::bitsum::{all_bits, bitsum, lemma_bitsum_bound, lemma_bitsum_digit, lemma_bitsum_ext, lemma_bitsum_of_bits};
use crate::error::FormatError;
use crate::le::{le16, le32, le64, push_u16, push_u32, read_u16, read_u32, read_u64, u16_at, u32_at, u64_at};
use crate::wrappers::{crc32, crc32_of, lz4_compress, lz4_compressed, lz4_decompress_into, lz4_decoded};
use vstd::arithmetic::power2::{lemma_pow2_adds, lemma_pow2_pos, lemma_pow2_unfold, pow2};
use vstd::std_specs::bits::u64_leading_zeros;
use vstd::prelude::*;
use vstd::wrapping::i64_specs;

verus! {

#[derive(Clone, Copy, Debug, PartialEq, Eq, Structural)]
pub enum Layout {
    Raw,
    Varint,
    Bitpack,
}

/// The stored id of each layout.
pub open spec fn layout_id(layout: Layout) -> u8 {
    match layout {
        Layout::Raw => 0,
        Layout::Varint => 1,
        Layout::Bitpack => 2,
    }
}

impl Layout {
    pub fn id(self) -> (r: u8)
        ensures
            r == layout_id(self),
    {
        match self {
            Layout::Raw => 0,
            Layout::Varint => 1,
            Layout::Bitpack => 2,
        }
    }
}

/// Zigzag: nonnegative deltas to even codes, negative deltas to odd codes.
pub open spec fn zz(d: i64) -> u64 {
    if d >= 0 {
        (2 * d) as u64
    } else {
        (-2 * d - 1) as u64
    }
}

/// The delta that a zigzag code stands for.
pub open spec fn unzz(v: u64) -> i64 {
    if v % 2 == 0 {
        (v / 2) as i64
    } else {
        (-(v / 2) - 1) as i64
    }
}

/// Zigzag decoding inverts zigzag encoding: every delta comes back.
pub proof fn lemma_unzz_zz(d: i64)
    ensures
        unzz(zz(d)) == d,
{
}

fn zigzag(delta: i64) -> (r: u64)
    ensures
        r == zz(delta),
{
    let r = ((delta << 1u32) ^ (delta >> 63u32)) as u64;
    assert(r == (if delta >= 0 { (2 * delta) as u64 } else { (-2 * delta - 1) as u64 })) by (bit_vector)
        requires
            r == ((delta << 1u32) ^ (delta >> 63u32)) as u64,
    ;
    r
}

fn unzigzag(value: u64) -> (r: i64)
    ensures
        r == unzz(value),
{
    let sign: i64 = if value & 1 == 1 { -1 } else { 0 };
    let r = ((value >> 1u64) as i64) ^ sign;
    assert(r == (if value % 2 == 0 { (value / 2) as i64 } else { (-(value / 2) - 1) as i64 })) by (bit_vector)
        requires
            sign == (if value & 1 == 1 { -1i64 } else { 0i64 }),
            r == ((value >> 1u64) as i64) ^ sign,
    ;
    r
}

/// Zigzag codes of the differences between neighbouring values.
pub open spec fn delta_codes(values: Seq<i64>) -> Seq<u64> {
    if values.len() == 0 {
        Seq::empty()
    } else {
        Seq::new((values.len() - 1) as nat, |i: int| zz(i64_specs::wrapping_sub(values[i + 1], values[i])))
    }
}

fn deltas(values: &Vec<i64>) -> (r: Vec<u64>)
    ensures
        r@ == delta_codes(values@),
{
    let mut out: Vec<u64> = Vec::new();
    if values.len() == 0 {
        return out;
    }
    let mut i: usize = 1;
    while i < values.len()
        invariant
            1 <= i <= values@.len(),
            out@ =~= delta_codes(values@).subrange(0, (i - 1) as int),
        decreases values@.len() - i,
    {
        out.push(zigzag(values[i].wrapping_sub(values[i - 1])));
        i = i + 1;
    }
    assert(delta_codes(values@).subrange(0, (values@.len() - 1) as int) =~= delta_codes(values@));
    out
}

/// LEB128: seven bits per byte, least significant group first, high bit set on all but the last.
pub open spec fn varint(v: u64) -> Seq<u8>
    decreases v,
{
    if v < 128 {
        seq![v as u8]
    } else {
        seq![(v % 128 + 128) as u8] + varint(v / 128)
    }
}

/// The LEB128 bytes of each code in turn.
pub open spec fn varints(codes: Seq<u64>) -> Seq<u8>
    decreases codes.len(),
{
    if codes.len() == 0 {
        Seq::empty()
    } else {
        varints(codes.drop_last()) + varint(codes.last())
    }
}

fn push_varint(out: &mut Vec<u8>, value: u64)
    ensures
        final(out)@ == old(out)@ + varint(value),
    decreases value,
{
    if value < 128 {
        out.push(value as u8);
        assert(final(out)@ =~= old(out)@ + varint(value));
    } else {
        let byte = (value % 128 + 128) as u8;
        out.push(byte);
        push_varint(out, value / 128);
        assert(final(out)@ =~= old(out)@ + varint(value));
    }
}


/// Reads one varint of at most ten bytes at `pos`, having read `k` bytes worth `acc`.
pub open spec fn varint_from(input: Seq<u8>, pos: int, k: nat, acc: nat) -> Result<(u64, int), FormatError>
    decreases 10 - k,
{
    if k >= 10 {
        Err(FormatError::UnterminatedVarint)
    } else if pos < 0 || pos >= input.len() {
        Err(FormatError::TruncatedVarint)
    } else {
        let b = input[pos];
        if k == 9 && b > 1 {
            Err(FormatError::VarintOverflow)
        } else {
            let acc2: nat = (acc + (b % 128) * pow2(7 * k)) as nat;
            if b < 128 {
                Ok((acc2 as u64, pos + 1))
            } else {
                varint_from(input, pos + 1, k + 1, acc2)
            }
        }
    }
}

/// The varint at `pos` and the position after it.
pub open spec fn varint_at(input: Seq<u8>, pos: int) -> Result<(u64, int), FormatError> {
    varint_from(input, pos, 0, 0)
}

proof fn lemma_or_is_add(v: u64, x: u64, s: u64)
    requires
        s < 64,
        v < pow2(s as nat),
        x * pow2(s as nat) <= u64::MAX,
    ensures
        v | (x << s) == v + x * pow2(s as nat),
{
    vstd::bits::lemma_u64_pow2_no_overflow(s as nat);
    vstd::bits::lemma_u64_shl_is_mul(x, s);
    vstd::bits::lemma_u64_shl_is_mul(1, s);
    assert(v < (1u64 << s) ==> v | (x << s) == v + (x << s)) by (bit_vector)
        requires
            s < 64,
    ;
}

fn read_varint(input: &[u8], pos: usize) -> (r: Result<(u64, usize), FormatError>)
    ensures
        r is Ok <==> varint_at(input@, pos as int) is Ok,
        r matches Ok((v, p)) ==> varint_at(input@, pos as int) == Ok::<(u64, int), FormatError>((v, p as int)),
        r matches Err(e) ==> varint_at(input@, pos as int) == Err::<(u64, int), FormatError>(e),
{
    let mut v: u64 = 0;
    let mut p: usize = pos;
    let mut k: usize = 0;
    proof {
        vstd::arithmetic::power2::lemma2_to64();
    }
    while k < 10
        invariant
            k <= 10,
            p == pos + k,
            v < pow2(7 * k as nat),
            varint_at(input@, pos as int) == varint_from(input@, p as int, k as nat, v as nat),
        decreases 10 - k,
    {
        if p >= input.len() {
            return Err(FormatError::TruncatedVarint);
        }
        let byte = input[p];
        p = p + 1;
        if k == 9 && byte > 1 {
            return Err(FormatError::VarintOverflow);
        }
        let x = (byte & 127) as u64;
        assert(byte & 127 == byte % 128) by (bit_vector);
        let s = (k * 7) as u64;
        proof {
            lemma_pow2_pos(s as nat);
            vstd::arithmetic::power2::lemma2_to64();
            if k < 9 {
                vstd::arithmetic::power2::lemma2_to64_rest();
                assert(pow2(7 * k as nat) <= pow2(56)) by {
                    if k < 8 {
                        vstd::arithmetic::power2::lemma_pow2_strictly_increases(7 * k as nat, 56);
                    }
                }
                assert(x * pow2(s as nat) <= 127 * pow2(56)) by (nonlinear_arith)
                    requires
                        x <= 127,
                        pow2(s as nat) <= pow2(56),
                ;
            } else {
                assert(x <= 1);
                assert(s == 63);
                vstd::arithmetic::power2::lemma2_to64_rest();
                assert(x * pow2(s as nat) <= u64::MAX) by (nonlinear_arith)
                    requires
                        x <= 1,
                        pow2(s as nat) == 0x8000_0000_0000_0000,
                ;
            }
            lemma_or_is_add(v, x, s);
            lemma_pow2_adds(7 * k as nat, 7);
            assert(v + x * pow2(s as nat) < pow2(7 * (k + 1) as nat)) by (nonlinear_arith)
                requires
                    v < pow2(s as nat),
                    x <= 127,
                    pow2(7 * (k + 1) as nat) == pow2(s as nat) * pow2(7),
                    pow2(7) == 128,
            ;
        }
        v = v | (x << s);
        if byte & 128 == 0 {
            assert(byte & 128 == 0 <==> byte < 128) by (bit_vector);
            return Ok((v, p));
        }
        assert(byte & 128 != 0 <==> byte >= 128) by (bit_vector);
        k = k + 1;
    }
    Err(FormatError::UnterminatedVarint)
}


/// Bit `t` of a byte stream, the least significant bit of each byte first.
pub open spec fn stream_bit(bytes: Seq<u8>, t: int) -> nat {
    (bytes[t / 8] as nat / pow2((t % 8) as nat)) % 2
}

/// The `w`-bit field that starts at bit `start` of a byte stream, least significant bit first.
pub open spec fn field(bytes: Seq<u8>, start: int, w: nat) -> nat
    decreases w,
{
    if w == 0 {
        0
    } else {
        field(bytes, start, (w - 1) as nat) + stream_bit(bytes, start + w - 1) * pow2((w - 1) as nat)
    }
}

/// Every bit of the byte stream from bit `from` on is zero.
pub open spec fn zero_from(bytes: Seq<u8>, from: int) -> bool {
    forall|t: int| from <= t < 8 * bytes.len() ==> #[trigger] stream_bit(bytes, t) == 0
}

/// The bytes that `count` fields of `w` bits take, rounded up to a whole byte.
pub open spec fn packed_len(count: nat, w: nat) -> nat {
    (count * w + 7) / 8
}

/// Running values from codes: each code is the zigzag delta from the previous value.
pub open spec fn apply_codes(acc: Seq<i64>, codes: Seq<u64>) -> Seq<i64>
    decreases codes.len(),
{
    if codes.len() == 0 {
        acc
    } else {
        let a = apply_codes(acc, codes.drop_last());
        a.push(i64_specs::wrapping_add(a.last(), unzz(codes.last())))
    }
}

/// The codes of one packed group: `count` fields of `w` bits.
pub open spec fn group_codes(bytes: Seq<u8>, w: nat, count: nat) -> Seq<u64> {
    Seq::new(count, |j: int| field(bytes, w * j, w) as u64)
}

/// Decodes packed groups at `pos` until `remaining` more values have been read after `acc`:
/// a width byte of at most 64, then the fields of up to 128 values, with zero padding bits.
pub open spec fn bitpack_column(input: Seq<u8>, pos: int, remaining: nat, acc: Seq<i64>) -> Result<(Seq<i64>, int), FormatError>
    decreases remaining,
{
    if remaining == 0 {
        Ok((acc, pos))
    } else if pos < 0 || pos >= input.len() {
        Err(FormatError::MissingBitWidth)
    } else {
        let w = input[pos] as nat;
        let count: nat = if remaining < 128 { remaining } else { 128 };
        let start = pos + 1;
        let end = start + packed_len(count, w);
        if w > 64 {
            Err(FormatError::InvalidBitWidth)
        } else if end > input.len() {
            Err(FormatError::TruncatedPackedGroup)
        } else {
            let bytes = input.subrange(start, end);
            if !zero_from(bytes, (count * w) as int) {
                Err(FormatError::NoncanonicalPadding)
            } else {
                bitpack_column(input, end, (remaining - count) as nat, apply_codes(acc, group_codes(bytes, w, count)))
            }
        }
    }
}

/// Decodes `remaining` varint codes at `pos`, each extending the values in `acc`.
pub open spec fn varint_column(input: Seq<u8>, pos: int, remaining: nat, acc: Seq<i64>) -> Result<(Seq<i64>, int), FormatError>
    decreases remaining,
{
    if remaining == 0 {
        Ok((acc, pos))
    } else {
        match varint_at(input, pos) {
            Err(e) => Err(e),
            Ok((v, p)) => varint_column(input, p, (remaining - 1) as nat, acc.push(i64_specs::wrapping_add(acc.last(), unzz(v)))),
        }
    }
}

/// What a stored column decodes to: eight bytes per raw value, or a first value followed by
/// varint or bit-packed zigzag deltas, with nothing left over.
pub open spec fn restore_column(input: Seq<u8>, rows: nat, layout: Layout) -> Result<Seq<i64>, FormatError> {
    if layout == Layout::Raw {
        if input.len() != rows * 8 {
            Err(FormatError::InvalidRawLength)
        } else {
            Ok(Seq::new(rows, |i: int| u64_at(input, 8 * i) as i64))
        }
    } else if rows == 0 {
        if input.len() != 0 {
            Err(FormatError::NonemptyZeroRowColumn)
        } else {
            Ok(Seq::empty())
        }
    } else if input.len() < 8 {
        Err(FormatError::MissingFirstValue)
    } else {
        let first = seq![u64_at(input, 0) as i64];
        let parsed = if layout == Layout::Varint {
            varint_column(input, 8, (rows - 1) as nat, first)
        } else {
            bitpack_column(input, 8, (rows - 1) as nat, first)
        };
        match parsed {
            Err(e) => Err(e),
            Ok((values, pos)) => if pos != input.len() {
                Err(FormatError::TrailingBytes)
            } else {
                Ok(values)
            },
        }
    }
}

fn read_bit(input: &[u8], base: usize, end: usize, t: usize) -> (r: u8)
    requires
        base + t / 8 < end <= input@.len(),
    ensures
        r as nat == stream_bit(input@.subrange(base as int, end as int), t as int),
        r <= 1,
{
    let _n = input.len();
    let byte = input[base + t / 8];
    let s = (t % 8) as u8;
    let r = (byte >> s) & 1;
    proof {
        vstd::bits::lemma_u8_shr_is_div(byte, s);
        assert((byte >> s) & 1 == (byte >> s) % 2) by (bit_vector);
        assert(input@.subrange(base as int, end as int)[(t / 8) as int] == byte);
    }
    r
}

proof fn lemma_field_bound(bytes: Seq<u8>, start: int, w: nat)
    requires
        forall|t: int| start <= t < start + w ==> #[trigger] stream_bit(bytes, t) <= 1,
    ensures
        field(bytes, start, w) < pow2(w),
    decreases w,
{
    if w == 0 {
        vstd::arithmetic::power2::lemma2_to64();
    } else {
        lemma_field_bound(bytes, start, (w - 1) as nat);
        lemma_pow2_unfold(w);
        assert(stream_bit(bytes, start + w - 1) <= 1);
        assert(field(bytes, start, w) < pow2(w)) by (nonlinear_arith)
            requires
                field(bytes, start, w) == field(bytes, start, (w - 1) as nat) + stream_bit(bytes, start + w - 1) * pow2((w - 1) as nat),
                field(bytes, start, (w - 1) as nat) < pow2((w - 1) as nat),
                stream_bit(bytes, start + w - 1) <= 1,
                pow2(w) == 2 * pow2((w - 1) as nat),
        ;
    }
}

proof fn lemma_stream_bit_le_one(bytes: Seq<u8>, t: int)
    ensures
        stream_bit(bytes, t) <= 1,
{
}

/// Reads the `w`-bit field at bit `start` of `input[base..end]`.
fn read_field(input: &[u8], base: usize, end: usize, start: usize, w: u8) -> (r: u64)
    requires
        w <= 64,
        start + 64 <= usize::MAX,
        base + (start + w as nat + 7) / 8 <= end <= input@.len(),
    ensures
        r as nat == field(input@.subrange(base as int, end as int), start as int, w as nat),
{
    let ghost bytes = input@.subrange(base as int, end as int);
    let mut v: u64 = 0;
    let mut b: u8 = 0;
    proof {
        vstd::arithmetic::power2::lemma2_to64();
    }
    while b < w
        invariant
            b <= w <= 64,
            start + 64 <= usize::MAX,
            base + (start + w as nat + 7) / 8 <= end <= input@.len(),
            bytes == input@.subrange(base as int, end as int),
            v as nat == field(bytes, start as int, b as nat),
            v < pow2(b as nat),
        decreases w - b,
    {
        let ghost old_v = v;
        let bit = read_bit(input, base, end, start + b as usize);
        assert(bit as nat == stream_bit(bytes, start + b));
        proof {
            vstd::arithmetic::power2::lemma2_to64();
            assert(field(bytes, start as int, (b + 1) as nat) == field(bytes, start as int, b as nat)
                + stream_bit(bytes, start + b) * pow2(b as nat));
            assert forall|t: int| start <= t < start + b + 1 implies #[trigger] stream_bit(bytes, t) <= 1 by {
                lemma_stream_bit_le_one(bytes, t);
            }
            lemma_field_bound(bytes, start as int, (b + 1) as nat);
            lemma_pow2_unfold((b + 1) as nat);
            vstd::bits::lemma_u64_pow2_no_overflow(b as nat);
        }
        if bit == 1 {
            proof {
                vstd::bits::lemma_u64_pow2_no_overflow(b as nat);
                assert((b as u64) as nat == b as nat);
                assert(1u64 * pow2(b as nat) == pow2(b as nat));
                vstd::bits::lemma_u64_shl_is_mul(1, b as u64);
                assert(pow2((b + 1) as nat) <= 0x1_0000_0000_0000_0000) by {
                    if b + 1 < 64 {
                        vstd::arithmetic::power2::lemma_pow2_strictly_increases((b + 1) as nat, 64);
                    }
                }
            }
            v = v + (1u64 << (b as u64));
            assert(stream_bit(bytes, start + b) * pow2(b as nat) == pow2(b as nat));
        } else {
            assert(stream_bit(bytes, start + b) == 0);
            let ghost sb = stream_bit(bytes, start as int + b as int);
            assert(sb * pow2(b as nat) == 0) by (nonlinear_arith)
                requires
                    sb == 0,
            ;
        }
        b = b + 1;
        proof {
            if b < 64 {
                vstd::arithmetic::power2::lemma_pow2_strictly_increases(b as nat, 64);
            }
        }
    }
    v
}


/// Decodes one packed group at `pos`, appending its values to `out`.
#[verifier::loop_isolation(false)]
fn decode_group(input: &[u8], pos: usize, remaining: usize, out: &mut Vec<i64>) -> (r: Result<usize, FormatError>)
    requires
        remaining > 0,
        old(out)@.len() >= 1,
    ensures
        r matches Err(e) ==> bitpack_column(input@, pos as int, remaining as nat, old(out)@) == Err::<(Seq<i64>, int), FormatError>(e),
        r matches Ok(end) ==> {
            let count: nat = if remaining < 128 { remaining as nat } else { 128 };
            &&& count <= remaining
            &&& bitpack_column(input@, pos as int, remaining as nat, old(out)@)
                == bitpack_column(input@, end as int, (remaining - count) as nat, final(out)@)
            &&& final(out)@.len() == old(out)@.len() + count
        },
{
    let _n = input.len();
    if pos >= input.len() {
        return Err(FormatError::MissingBitWidth);
    }
    let w = input[pos];
    let count: usize = if remaining < 128 { remaining } else { 128 };
    if w > 64 {
        return Err(FormatError::InvalidBitWidth);
    }
    assert(count * w <= 8192) by (nonlinear_arith)
        requires
            count <= 128,
            w <= 64,
    ;
    let bits = count * w as usize;
    let nbytes = (bits + 7) / 8;
    let ghost spec_count: nat = if remaining < 128 { remaining as nat } else { 128 };
    assert(spec_count == count);
    assert(packed_len(count as nat, w as nat) == nbytes);
    assert(nbytes <= 1024);
    let start = pos + 1;
    if nbytes > input.len() - start {
        return Err(FormatError::TruncatedPackedGroup);
    }
    let end = start + nbytes;
    let ghost bytes = input@.subrange(start as int, end as int);
    let mut t = bits;
    while t < 8 * nbytes
        invariant
            bits <= t <= 8 * nbytes,
            bits == count * w,
            nbytes <= 1024,
            end == start + nbytes <= input@.len(),
            bytes == input@.subrange(start as int, end as int),
            bytes.len() == nbytes,
            forall|u: int| bits <= u < t ==> #[trigger] stream_bit(bytes, u) == 0,
        decreases 8 * nbytes - t,
    {
        if read_bit(input, start, end, t) != 0 {
            assert(stream_bit(bytes, t as int) != 0);
            assert(!zero_from(bytes, (count as nat * w as nat) as int));
            return Err(FormatError::NoncanonicalPadding);
        }
        t = t + 1;
    }
    let ghost codes = group_codes(bytes, w as nat, count as nat);
    let ghost before = out@;
    let mut j: usize = 0;
    while j < count
        invariant
            j <= count <= 128,
            w <= 64,
            bits == count * w,
            nbytes == (bits + 7) / 8,
            end == start + nbytes <= input@.len(),
            bytes == input@.subrange(start as int, end as int),
            codes == group_codes(bytes, w as nat, count as nat),
            before.len() >= 1,
            out@ == apply_codes(before, codes.take(j as int)),
            out@.len() == before.len() + j,
        decreases count - j,
    {
        assert((w as nat * j + w as nat + 7) / 8 <= nbytes && w * j <= 8192) by (nonlinear_arith)
            requires
                j < count,
                count <= 128,
                w <= 64,
                bits == count * w,
                nbytes == (bits + 7) / 8,
        ;
        let code = read_field(input, start, end, w as usize * j, w);
        let last = out[out.len() - 1];
        out.push(last.wrapping_add(unzigzag(code)));
        proof {
            assert(codes.take(j + 1).drop_last() =~= codes.take(j as int));
            assert(codes.take(j + 1).last() == code);
        }
        j = j + 1;
    }
    assert(codes.take(count as int) =~= codes);
    assert(zero_from(bytes, (count as nat * w as nat) as int));
    assert(bitpack_column(input@, pos as int, remaining as nat, before)
        == bitpack_column(input@, end as int, (remaining - count) as nat, apply_codes(before, codes)));
    Ok(end)
}


#[verifier::loop_isolation(false)]
pub fn restore(input: &[u8], rows: usize, layout: Layout) -> (r: Result<Vec<i64>, FormatError>)
    requires
        rows <= MAX_ROWS,
    ensures
        r matches Ok(v) ==> restore_column(input@, rows as nat, layout) == Ok::<Seq<i64>, FormatError>(v@),
        r matches Err(e) ==> restore_column(input@, rows as nat, layout) == Err::<Seq<i64>, FormatError>(e),
{
    let _n = input.len();
    if let Layout::Raw = layout {
        if input.len() != rows * 8 {
            return Err(FormatError::InvalidRawLength);
        }
        let ghost expected = Seq::new(rows as nat, |i: int| u64_at(input@, 8 * i) as i64);
        let mut out: Vec<i64> = Vec::with_capacity(rows);
        let mut i: usize = 0;
        while i < rows
            invariant
                i <= rows <= MAX_ROWS,
                input@.len() == rows * 8,
                expected == Seq::new(rows as nat, |i: int| u64_at(input@, 8 * i) as i64),
                out@ =~= expected.take(i as int),
            decreases rows - i,
        {
            out.push(read_u64(input, 8 * i) as i64);
            i = i + 1;
        }
        assert(expected.take(rows as int) =~= expected);
        return Ok(out);
    }
    if rows == 0 {
        if input.len() != 0 {
            return Err(FormatError::NonemptyZeroRowColumn);
        }
        return Ok(Vec::new());
    }
    if input.len() < 8 {
        return Err(FormatError::MissingFirstValue);
    }
    let mut out: Vec<i64> = Vec::with_capacity(rows);
    out.push(read_u64(input, 0) as i64);
    let ghost first = out@;
    let mut pos: usize = 8;
    if let Layout::Varint = layout {
        let mut k: usize = 1;
        while k < rows
            invariant
                1 <= k <= rows <= MAX_ROWS,
                out@.len() == k,
                varint_column(input@, 8, (rows - 1) as nat, first)
                    == varint_column(input@, pos as int, (rows - k) as nat, out@),
            decreases rows - k,
        {
            match read_varint(input, pos) {
                Err(e) => {
                    return Err(e);
                },
                Ok((v, p)) => {
                    let last = out[out.len() - 1];
                    out.push(last.wrapping_add(unzigzag(v)));
                    pos = p;
                },
            }
            k = k + 1;
        }
    } else {
        while out.len() < rows
            invariant
                1 <= out@.len() <= rows <= MAX_ROWS,
                layout == Layout::Bitpack,
                bitpack_column(input@, 8, (rows - 1) as nat, first)
                    == bitpack_column(input@, pos as int, (rows - out@.len()) as nat, out@),
            decreases rows - out@.len(),
        {
            let remaining = rows - out.len();
            match decode_group(input, pos, remaining, &mut out) {
                Err(e) => {
                    return Err(e);
                },
                Ok(end) => {
                    pos = end;
                },
            }
        }
    }
    if pos != input.len() {
        return Err(FormatError::TrailingBytes);
    }
    Ok(out)
}


/// The bitwise OR of all codes of a group.
pub open spec fn or_all(g: Seq<u64>) -> u64
    decreases g.len(),
{
    if g.len() == 0 {
        0
    } else {
        or_all(g.drop_last()) | g.last()
    }
}

/// The bits needed for the largest code of a group.
pub open spec fn group_width(g: Seq<u64>) -> nat {
    (64 - u64_leading_zeros(or_all(g))) as nat
}

/// Bit `t` of the packed stream of a group: bit `t % w` of code `t / w`, zero past the codes.
pub open spec fn enc_bit(g: Seq<u64>, w: nat, t: int) -> nat {
    if w > 0 && 0 <= t < g.len() * w {
        (g[t / (w as int)] as nat / pow2((t % (w as int)) as nat)) % 2
    } else {
        0
    }
}

/// The value of `n` stream bits from bit `start`, least significant first.
pub open spec fn bits_value(g: Seq<u64>, w: nat, start: int, n: nat) -> nat
    decreases n,
{
    if n == 0 {
        0
    } else {
        bits_value(g, w, start, (n - 1) as nat) + enc_bit(g, w, start + n - 1) * pow2((n - 1) as nat)
    }
}

/// The codes of a group packed at `w` bits each into whole bytes.
pub open spec fn packed(g: Seq<u64>, w: nat) -> Seq<u8> {
    Seq::new(packed_len(g.len(), w), |k: int| bits_value(g, w, 8 * k, 8) as u8)
}

/// A stored group: its width, then its packed codes.
pub open spec fn group_bytes(g: Seq<u64>) -> Seq<u8> {
    seq![group_width(g) as u8] + packed(g, group_width(g))
}

/// The stored groups of up to 128 codes each, from code `i` on.
pub open spec fn groups_from(codes: Seq<u64>, i: int) -> Seq<u8>
    decreases codes.len() - i,
{
    if i < 0 || i >= codes.len() {
        Seq::empty()
    } else {
        let j = if i + 128 < codes.len() { i + 128 } else { codes.len() as int };
        group_bytes(codes.subrange(i, j)) + groups_from(codes, j)
    }
}

/// How a column is stored before compression: raw values, or the first value followed by
/// varint or bit-packed zigzag deltas.
pub open spec fn transform_column(values: Seq<i64>, layout: Layout) -> Seq<u8> {
    if layout == Layout::Raw {
        le64_concat(values)
    } else if values.len() == 0 {
        Seq::empty()
    } else if layout == Layout::Varint {
        le64(values[0] as u64) + varints(delta_codes(values))
    } else {
        le64(values[0] as u64) + groups_from(delta_codes(values), 0)
    }
}

fn group_or(codes: &Vec<u64>, from: usize, to: usize) -> (r: u64)
    requires
        from <= to <= codes@.len(),
    ensures
        r == or_all(codes@.subrange(from as int, to as int)),
{
    let mut acc: u64 = 0;
    let mut j = from;
    while j < to
        invariant
            from <= j <= to <= codes@.len(),
            acc == or_all(codes@.subrange(from as int, j as int)),
        decreases to - j,
    {
        proof {
            assert(codes@.subrange(from as int, j + 1).drop_last() =~= codes@.subrange(from as int, j as int));
        }
        acc = acc | codes[j];
        j = j + 1;
    }
    acc
}

proof fn lemma_bits_value_bound(g: Seq<u64>, w: nat, start: int, n: nat)
    ensures
        bits_value(g, w, start, n) < pow2(n),
    decreases n,
{
    if n == 0 {
        vstd::arithmetic::power2::lemma2_to64();
    } else {
        lemma_bits_value_bound(g, w, start, (n - 1) as nat);
        lemma_pow2_unfold(n);
        let b = enc_bit(g, w, start + n - 1);
        assert(b <= 1);
        assert(bits_value(g, w, start, n) < pow2(n)) by (nonlinear_arith)
            requires
                bits_value(g, w, start, n) == bits_value(g, w, start, (n - 1) as nat) + b * pow2((n - 1) as nat),
                bits_value(g, w, start, (n - 1) as nat) < pow2((n - 1) as nat),
                b <= 1,
                pow2(n) == 2 * pow2((n - 1) as nat),
        ;
    }
}

/// One packed byte: stream bits 8k..8k+7 of the group.
fn pack_byte(codes: &Vec<u64>, from: usize, to: usize, w: u32, k: usize) -> (r: u8)
    requires
        from <= to <= codes@.len(),
        to - from <= 128,
        1 <= w <= 64,
        k < 1100,
    ensures
        r as nat == bits_value(codes@.subrange(from as int, to as int), w as nat, 8 * k, 8),
{
    let ghost g = codes@.subrange(from as int, to as int);
    let len = to - from;
    assert(len * w <= 8192) by (nonlinear_arith)
        requires
            len <= 128,
            w <= 64,
    ;
    let total = len * w as usize;
    let mut byte: u8 = 0;
    let mut i: usize = 0;
    proof {
        vstd::arithmetic::power2::lemma2_to64();
    }
    while i < 8
        invariant
            i <= 8,
            from <= to <= codes@.len(),
            len == to - from <= 128,
            total == len * w,
            1 <= w <= 64,
            k < 1100,
            g == codes@.subrange(from as int, to as int),
            byte as nat == bits_value(g, w as nat, 8 * k, i as nat),
        decreases 8 - i,
    {
        let t = 8 * k + i;
        let mut bit: u8 = 0;
        if t < total {
            assert((t as int) / (w as int) < len) by (nonlinear_arith)
                requires
                    t < total,
                    total == len * w,
                    w >= 1,
            ;
            let code = codes[from + t / (w as usize)];
            let sh = (t % (w as usize)) as u64;
            bit = ((code >> sh) & 1) as u8;
            proof {
                vstd::bits::lemma_u64_shr_is_div(code, sh);
                assert((code >> sh) & 1 == (code >> sh) % 2) by (bit_vector);
                assert(g[(t / (w as usize)) as int] == code);
            }
            assert(bit as nat == enc_bit(g, w as nat, (8 * k + i) as int));
        } else {
            assert(enc_bit(g, w as nat, (8 * k + i) as int) == 0);
        }
        proof {
            lemma_bits_value_bound(g, w as nat, 8 * k, i as nat);
            lemma_pow2_unfold((i + 1) as nat);
            vstd::bits::lemma_u8_pow2_no_overflow(i as nat);
        }
        if bit == 1 {
            proof {
                assert((i as u8) as nat == i as nat);
                assert(1u8 * pow2(i as nat) == pow2(i as nat));
                vstd::bits::lemma_u8_shl_is_mul(1, i as u8);
                assert(pow2((i + 1) as nat) <= 256) by {
                    vstd::arithmetic::power2::lemma2_to64();
                    if i + 1 < 8 {
                        vstd::arithmetic::power2::lemma_pow2_strictly_increases((i + 1) as nat, 8);
                    }
                }
            }
            byte = byte + (1u8 << (i as u8));
            assert(enc_bit(g, w as nat, (8 * k + i) as int) * pow2(i as nat) == pow2(i as nat));
        } else {
            let ghost eb = enc_bit(g, w as nat, (8 * k + i) as int);
            assert(eb * pow2(i as nat) == 0) by (nonlinear_arith)
                requires
                    eb == 0,
            ;
        }
        i = i + 1;
    }
    byte
}


fn encode_group(codes: &Vec<u64>, from: usize, to: usize, out: &mut Vec<u8>)
    requires
        from <= to <= codes@.len(),
        to - from <= 128,
    ensures
        final(out)@ == old(out)@ + group_bytes(codes@.subrange(from as int, to as int)),
{
    let ghost g = codes@.subrange(from as int, to as int);
    let or = group_or(codes, from, to);
    let lz = or.leading_zeros();
    proof {
        vstd::std_specs::bits::axiom_u64_leading_zeros(or);
    }
    let w = 64 - lz;
    out.push(w as u8);
    let ghost head = out@;
    if w != 0 {
        let len = to - from;
        assert(len * w <= 8192) by (nonlinear_arith)
            requires
                len <= 128,
                w <= 64,
        ;
        let nbytes = (len * w as usize + 7) / 8;
        let mut k: usize = 0;
        while k < nbytes
            invariant
                k <= nbytes <= 1025,
                nbytes == packed_len(g.len(), w as nat),
                from <= to <= codes@.len(),
                to - from <= 128,
                1 <= w <= 64,
                g == codes@.subrange(from as int, to as int),
                out@ =~= head + packed(g, w as nat).take(k as int),
            decreases nbytes - k,
        {
            let byte = pack_byte(codes, from, to, w, k);
            out.push(byte);
            k = k + 1;
        }
        assert(packed(g, w as nat).take(nbytes as int) =~= packed(g, w as nat));
    } else {
        let ghost n = g.len();
        assert(n * 0 == 0) by (nonlinear_arith);
        assert(packed(g, 0) =~= Seq::<u8>::empty());
    }
    assert(final(out)@ =~= old(out)@ + group_bytes(g));
}

/// The stored form of one column before compression.
fn transform(values: &Vec<i64>, layout: Layout) -> (r: Vec<u8>)
    ensures
        r@ == transform_column(values@, layout),
{
    let mut out: Vec<u8> = Vec::new();
    if let Layout::Raw = layout {
        crate::data::push_le64_values(&mut out, values);
        return out;
    }
    if values.len() == 0 {
        return out;
    }
    crate::le::push_u64(&mut out, values[0] as u64);
    let head = out.clone();
    let encoded = deltas(values);
    if let Layout::Varint = layout {
        let mut i: usize = 0;
        while i < encoded.len()
            invariant
                i <= encoded@.len(),
                out@ == head@ + varints(encoded@.subrange(0, i as int)),
            decreases encoded@.len() - i,
        {
            push_varint(&mut out, encoded[i]);
            proof {
                assert(encoded@.subrange(0, i + 1).drop_last() =~= encoded@.subrange(0, i as int));
            }
            i = i + 1;
        }
        assert(encoded@.subrange(0, encoded@.len() as int) =~= encoded@);
    } else {
        let mut i: usize = 0;
        while i < encoded.len()
            invariant
                i <= encoded@.len(),
                out@ + groups_from(encoded@, i as int) == head@ + groups_from(encoded@, 0),
            decreases encoded@.len() - i,
        {
            let to = if encoded.len() - i > 128 { i + 128 } else { encoded.len() };
            let ghost before = out@;
            encode_group(&encoded, i, to, &mut out);
            proof {
                assert(groups_from(encoded@, i as int) == group_bytes(encoded@.subrange(i as int, to as int))
                    + groups_from(encoded@, to as int));
                assert(out@ + groups_from(encoded@, to as int) =~= before + groups_from(encoded@, i as int));
            }
            i = to;
        }
        assert(out@ =~= head@ + groups_from(encoded@, 0));
    }
    out
}


pub const MAX_BLOCK_BYTES: usize = 128 * 1024 * 1024;

/// "GQOBLK01": the magic and version of a block.
pub open spec fn block_magic() -> Seq<u8> {
    seq![71u8, 81, 79, 66, 76, 75, 48, 49]
}

fn push_magic(out: &mut Vec<u8>, magic: [u8; 8])
    ensures
        final(out)@ == old(out)@ + magic@,
{
    let mut i: usize = 0;
    while i < 8
        invariant
            i <= 8,
            out@ == old(out)@ + magic@.take(i as int),
        decreases 8 - i,
    {
        out.push(magic[i]);
        proof {
            assert(magic@.take(i + 1) =~= magic@.take(i as int).push(magic@[i as int]));
        }
        i = i + 1;
    }
    assert(magic@.take(8) =~= magic@);
}

/// Whether the eight bytes at `pos` are `magic`.
fn has_magic(input: &[u8], pos: usize, magic: [u8; 8]) -> (r: bool)
    requires
        pos + 8 <= input@.len(),
    ensures
        r == (input@.subrange(pos as int, pos + 8) == magic@),
{
    let _n = input.len();
    let mut i: usize = 0;
    while i < 8
        invariant
            i <= 8,
            pos + 8 <= input@.len() <= usize::MAX,
            forall|j: int| 0 <= j < i ==> input@[pos + j] == magic@[j],
        decreases 8 - i,
    {
        if input[pos + i] != magic[i] {
            assert(input@.subrange(pos as int, pos + 8)[i as int] != magic@[i as int]);
            return false;
        }
        i = i + 1;
    }
    assert(input@.subrange(pos as int, pos + 8) =~= magic@);
    true
}

/// A column's directory entry (stored and compressed lengths) and its compressed bytes.
pub open spec fn stored_column(values: Seq<i64>, layout: Layout) -> (Seq<u8>, Seq<u8>) {
    let t = transform_column(values, layout);
    let z = lz4_compressed(t);
    (le32(t.len() as u32) + le32(z.len() as u32), z)
}

/// The directory entries of all columns, in column order.
pub open spec fn block_directory(cols: Seq<Seq<i64>>, layout: Layout) -> Seq<u8>
    decreases cols.len(),
{
    if cols.len() == 0 {
        Seq::empty()
    } else {
        block_directory(cols.drop_last(), layout) + stored_column(cols.last(), layout).0
    }
}

/// The compressed columns, in column order.
pub open spec fn block_payload(cols: Seq<Seq<i64>>, layout: Layout) -> Seq<u8>
    decreases cols.len(),
{
    if cols.len() == 0 {
        Seq::empty()
    } else {
        block_payload(cols.drop_last(), layout) + stored_column(cols.last(), layout).1
    }
}

/// A block: magic, layout, schema id, column and row counts, directory, columns,
/// then the CRC-32 of everything before it.
pub open spec fn encode_block(kind: Kind, cols: Seq<Seq<i64>>, layout: Layout) -> Seq<u8> {
    let body = block_magic() + seq![layout_id(layout), kind_id(kind)] + le16(cols.len() as u16)
        + le32(rows_of(cols) as u32) + block_directory(cols, layout) + block_payload(cols, layout);
    body + le32(crc32_of(body))
}

/// The layout with a stored id.
pub open spec fn layout_of_id(id: u8) -> Option<Layout> {
    if id == 0 {
        Some(Layout::Raw)
    } else if id == 1 {
        Some(Layout::Varint)
    } else if id == 2 {
        Some(Layout::Bitpack)
    } else {
        None
    }
}

/// Decodes the columns from column `c` on, whose compressed bytes start at `pos`.
pub open spec fn decode_columns(input: Seq<u8>, c: nat, pos: int, rows: nat, layout: Layout, acc: Seq<Seq<i64>>) -> Result<(Seq<Seq<i64>>, int), FormatError>
    decreases 8 - c,
{
    if c >= 8 {
        Ok((acc, pos))
    } else {
        let d: int = 16 + 8 * c as int;
        let expanded = u32_at(input, d);
        let compressed = u32_at(input, d + 4);
        let checksum_at = input.len() - 4;
        if expanded > rows * 10 {
            Err(FormatError::ExpandedTooLarge)
        } else if compressed > checksum_at - pos {
            Err(FormatError::TruncatedColumn)
        } else {
            match lz4_decoded(input.subrange(pos, pos + compressed)) {
                None => Err(FormatError::Decompression),
                Some(raw) => if raw.len() > expanded {
                    Err(FormatError::Decompression)
                } else if raw.len() != expanded {
                    Err(FormatError::SizeMismatch)
                } else {
                    match restore_column(raw, rows, layout) {
                        Err(e) => Err(e),
                        Ok(values) => decode_columns(input, c + 1, pos + compressed, rows, layout, acc.push(values)),
                    }
                },
            }
        }
    }
}

/// What a block decodes to: its schema and columns, or the first check that it fails.
pub open spec fn decode_block(input: Seq<u8>) -> Result<(Kind, Seq<Seq<i64>>), FormatError> {
    if input.len() < 20 || input.len() > MAX_BLOCK_BYTES {
        Err(FormatError::InvalidBlockSize)
    } else if input.subrange(0, 8) != block_magic() {
        Err(FormatError::BadMagic)
    } else if crc32_of(input.subrange(0, input.len() - 4)) != u32_at(input, input.len() - 4) {
        Err(FormatError::ChecksumMismatch)
    } else if layout_of_id(input[8]) is None {
        Err(FormatError::UnknownLayout)
    } else if kind_of_id(input[9]) is None {
        Err(FormatError::UnknownSchema)
    } else if u16_at(input, 10) != 8 || u32_at(input, 12) > MAX_ROWS {
        Err(FormatError::InvalidDimensions)
    } else if 16 + 8 * 8 > input.len() - 4 {
        Err(FormatError::TruncatedDirectory)
    } else {
        match decode_columns(input, 0, 80int, u32_at(input, 12) as nat, layout_of_id(input[8]).unwrap(), Seq::empty()) {
            Err(e) => Err(e),
            Ok((cols, pos)) => if pos != input.len() - 4 {
                Err(FormatError::TrailingBlockBytes)
            } else if columns_error(cols) is Some {
                Err(columns_error(cols).unwrap())
            } else {
                Ok((kind_of_id(input[9]).unwrap(), cols))
            },
        }
    }
}

fn store_column(values: &Vec<i64>, layout: Layout, directory: &mut Vec<u8>, payload: &mut Vec<u8>)
    ensures
        final(directory)@ == old(directory)@ + stored_column(values@, layout).0,
        final(payload)@ == old(payload)@ + stored_column(values@, layout).1,
        lz4_decoded(stored_column(values@, layout).1) == Some(transform_column(values@, layout)),
{
    let encoded = transform(values, layout);
    let compressed = lz4_compress(encoded.as_slice());
    push_u32(directory, encoded.len() as u32);
    push_u32(directory, compressed.len() as u32);
    payload.extend_from_slice(compressed.as_slice());
    assert(final(directory)@ =~= old(directory)@ + stored_column(values@, layout).0);
}

pub fn encode(data: &Columns, layout: Layout) -> (r: Result<Vec<u8>, FormatError>)
    ensures
        columns_error(data.cols()) matches Some(e) ==> r == Err::<Vec<u8>, FormatError>(e),
        columns_error(data.cols()) is None ==> (r matches Ok(v) && v@ == encode_block(data.kind, data.cols(), layout)),
        r matches Ok(v) ==> (v@.len() <= MAX_BLOCK_BYTES ==> decode_block(v@)
            == Ok::<(Kind, Seq<Seq<i64>>), FormatError>((data.kind, data.cols()))),
{
    match data.validate() {
        Err(e) => {
            return Err(e);
        },
        Ok(()) => {},
    }
    let mut payload: Vec<u8> = Vec::new();
    let mut directory: Vec<u8> = Vec::new();
    let mut c: usize = 0;
    while c < data.values.len()
        invariant
            c <= data.values@.len(),
            directory@ == block_directory(data.cols().take(c as int), layout),
            payload@ == block_payload(data.cols().take(c as int), layout),
            columns_decompress(data.cols().take(c as int), layout),
        decreases data.values@.len() - c,
    {
        store_column(&data.values[c], layout, &mut directory, &mut payload);
        proof {
            let next = data.cols().take(c + 1);
            assert(next.drop_last() =~= data.cols().take(c as int));
            assert(next.last() == data.values@[c as int]@);
            assert(directory@ =~= block_directory(next, layout));
            assert(payload@ =~= block_payload(next, layout));
            assert forall|k: int| 0 <= k < next.len() implies lz4_decoded(#[trigger] stored_column(next[k], layout).1)
                == Some(transform_column(next[k], layout)) by {
                if k < c {
                    assert(next[k] == data.cols().take(c as int)[k]);
                }
            }
        }
        c = c + 1;
    }
    assert(data.cols().take(data.values@.len() as int) =~= data.cols());
    let mut out: Vec<u8> = Vec::new();
    let magic: [u8; 8] = [71u8, 81, 79, 66, 76, 75, 48, 49];
    assert(magic@ =~= block_magic());
    push_magic(&mut out, magic);
    out.push(layout.id());
    out.push(data.kind.id());
    push_u16(&mut out, data.values.len() as u16);
    push_u32(&mut out, data.rows() as u32);
    out.extend_from_slice(directory.as_slice());
    out.extend_from_slice(payload.as_slice());
    let ghost body = block_magic() + seq![layout_id(layout), kind_id(data.kind)] + le16(data.cols().len() as u16)
        + le32(rows_of(data.cols()) as u32) + block_directory(data.cols(), layout) + block_payload(data.cols(), layout);
    assert(data.cols().len() == data.values@.len());
    assert(out@ =~= body);
    let checksum = crc32(out.as_slice());
    push_u32(&mut out, checksum);
    proof {
        if out@.len() <= MAX_BLOCK_BYTES {
            crate::block_roundtrip::lemma_block_roundtrip(data.kind, data.cols(), layout);
        }
    }
    Ok(out)
}

pub fn framing_bytes() -> (r: usize)
    ensures
        r == 16 + 8 * 8 + 4,
{
    16 + 8 * 8 + 4
}


/// Decompresses one stored column of exactly `expanded` bytes.
fn decompress_exact(input: &[u8], expanded: usize) -> (r: Result<Vec<u8>, FormatError>)
    ensures
        r matches Ok(raw) ==> lz4_decoded(input@) == Some(raw@) && raw@.len() == expanded,
        r matches Err(e) ==> match lz4_decoded(input@) {
            None => e == FormatError::Decompression,
            Some(raw) => (raw.len() > expanded && e == FormatError::Decompression) || (raw.len()
                <= expanded && raw.len() != expanded && e == FormatError::SizeMismatch),
        },
{
    let mut raw: Vec<u8> = vec![0u8; expanded];
    match lz4_decompress_into(input, &mut raw) {
        Err(_) => Err(FormatError::Decompression),
        Ok(written) => {
            if written != expanded {
                return Err(FormatError::SizeMismatch);
            }
            assert(raw@.subrange(0, written as int) =~= raw@);
            Ok(raw)
        },
    }
}

#[verifier::loop_isolation(false)]
pub fn decode(input: &[u8]) -> (r: Result<Columns, FormatError>)
    ensures
        r matches Ok(c) ==> decode_block(input@) == Ok::<(Kind, Seq<Seq<i64>>), FormatError>((c.kind, c.cols())),
        r matches Err(e) ==> decode_block(input@) == Err::<(Kind, Seq<Seq<i64>>), FormatError>(e),
{
    let n = input.len();
    if n < 20 || n > MAX_BLOCK_BYTES {
        return Err(FormatError::InvalidBlockSize);
    }
    if !has_magic(input, 0, [71u8, 81, 79, 66, 76, 75, 48, 49]) {
        assert([71u8, 81, 79, 66, 76, 75, 48, 49]@ =~= block_magic());
        return Err(FormatError::BadMagic);
    }
    assert([71u8, 81, 79, 66, 76, 75, 48, 49]@ =~= block_magic());
    let checksum_at = n - 4;
    let expected = read_u32(input, checksum_at);
    if crc32(&input[0..checksum_at]) != expected {
        return Err(FormatError::ChecksumMismatch);
    }
    let layout = match input[8] {
        0 => Layout::Raw,
        1 => Layout::Varint,
        2 => Layout::Bitpack,
        _ => {
            return Err(FormatError::UnknownLayout);
        },
    };
    let kind = match Kind::from_id(input[9]) {
        Ok(k) => k,
        Err(e) => {
            return Err(e);
        },
    };
    let cols = read_u16(input, 10) as usize;
    let rows = read_u32(input, 12) as usize;
    if cols != 8 || rows > MAX_ROWS {
        return Err(FormatError::InvalidDimensions);
    }
    let mut pos: usize = 16 + cols * 8;
    if pos > checksum_at {
        return Err(FormatError::TruncatedDirectory);
    }
    let mut values: Vec<Vec<i64>> = Vec::new();
    assert(values@.map_values(|v: Vec<i64>| v@) =~= Seq::<Seq<i64>>::empty());
    let mut c: usize = 0;
    while c < cols
        invariant
            c <= cols == 8,
            rows <= MAX_ROWS,
            n == input@.len() >= 20,
            checksum_at == n - 4,
            80 <= pos <= checksum_at,
            layout_of_id(input@[8]) == Some(layout),
            rows == u32_at(input@, 12),
            values@.len() == c,
            decode_columns(input@, 0, 80, rows as nat, layout, Seq::empty())
                == decode_columns(input@, c as nat, pos as int, rows as nat, layout, values@.map_values(|v: Vec<i64>| v@)),
        decreases cols - c,
    {
        let d = 16 + 8 * c;
        let expanded = read_u32(input, d) as usize;
        let compressed = read_u32(input, d + 4) as usize;
        if expanded > rows * 10 {
            return Err(FormatError::ExpandedTooLarge);
        }
        if compressed > checksum_at - pos {
            return Err(FormatError::TruncatedColumn);
        }
        let raw = match decompress_exact(&input[pos..pos + compressed], expanded) {
            Ok(raw) => raw,
            Err(e) => {
                return Err(e);
            },
        };
        let column = match restore(raw.as_slice(), rows, layout) {
            Ok(column) => column,
            Err(e) => {
                return Err(e);
            },
        };
        let ghost before = values@.map_values(|v: Vec<i64>| v@);
        values.push(column);
        proof {
            assert(values@.map_values(|v: Vec<i64>| v@) =~= before.push(column@));
        }
        pos = pos + compressed;
        c = c + 1;
    }
    if pos != checksum_at {
        return Err(FormatError::TrailingBlockBytes);
    }
    let result = Columns { kind, values };
    match result.validate() {
        Err(e) => Err(e),
        Ok(()) => Ok(result),
    }
}


proof fn lemma_field_is_bitsum(bytes: Seq<u8>, start: int, w: nat)
    ensures
        field(bytes, start, w) == bitsum(|t: int| stream_bit(bytes, t), start, w),
    decreases w,
{
    if w > 0 {
        lemma_field_is_bitsum(bytes, start, (w - 1) as nat);
    }
}

proof fn lemma_bits_value_is_bitsum(g: Seq<u64>, w: nat, start: int, n: nat)
    ensures
        bits_value(g, w, start, n) == bitsum(|t: int| enc_bit(g, w, t), start, n),
    decreases n,
{
    if n > 0 {
        lemma_bits_value_is_bitsum(g, w, start, (n - 1) as nat);
    }
}

/// Each bit of the packed bytes is the stream bit that the encoder put there.
proof fn lemma_packed_bit(g: Seq<u64>, w: nat, t: int)
    requires
        0 <= t < 8 * packed_len(g.len(), w),
    ensures
        stream_bit(packed(g, w), t) == enc_bit(g, w, t),
{
    let k = t / 8;
    let i = t % 8;
    let b = |u: int| enc_bit(g, w, u);
    lemma_bits_value_is_bitsum(g, w, 8 * k, 8);
    assert(all_bits(b, 8 * k, 8));
    lemma_bitsum_bound(b, 8 * k, 8);
    vstd::arithmetic::power2::lemma2_to64();
    let v = bits_value(g, w, 8 * k, 8);
    assert(packed(g, w)[k] == v as u8);
    assert((v as u8) as nat == v);
    lemma_bitsum_digit(b, 8 * k, 8, i as nat);
    assert(8 * k + i == t);
}

/// The codes of a group fit its width.
pub(crate) proof fn lemma_group_width(g: Seq<u64>)
    ensures
        group_width(g) <= 64,
        forall|j: int| 0 <= j < g.len() ==> (#[trigger] g[j] as nat) < pow2(group_width(g)),
    decreases g.len(),
{
    let o = or_all(g);
    vstd::std_specs::bits::axiom_u64_leading_zeros(o);
    let w = group_width(g);
    vstd::arithmetic::power2::lemma2_to64();
    assert forall|j: int| 0 <= j < g.len() implies (#[trigger] g[j] as nat) < pow2(w) by {
        lemma_le_or_all(g, j);
        if w < 64 {
            let ws = w as u64;
            assert(o >> (64 - u64_leading_zeros(o)) as u64 == 0u64);
            assert(o >> ws == 0u64);
            vstd::bits::lemma_u64_shr_is_div(o, ws);
            vstd::arithmetic::power2::lemma_pow2_pos(w);
            assert(o < pow2(w)) by {
                if o >= pow2(w) {
                    vstd::arithmetic::div_mod::lemma_div_is_ordered(pow2(w) as int, o as int, pow2(w) as int);
                    vstd::arithmetic::div_mod::lemma_div_by_self(pow2(w) as int);
                }
            }
        }
    }
}

/// A code is at most the OR of its group.
pub(crate) proof fn lemma_le_or_all(g: Seq<u64>, j: int)
    requires
        0 <= j < g.len(),
    ensures
        g[j] <= or_all(g),
    decreases g.len(),
{
    let a = or_all(g.drop_last());
    let x = g.last();
    assert(a <= (a | x) && x <= (a | x)) by (bit_vector);
    if j < g.len() - 1 {
        lemma_le_or_all(g.drop_last(), j);
        assert(g.drop_last()[j] == g[j]);
    }
}

/// A packed group reads back as its codes, with zero padding.
proof fn lemma_group_roundtrip(g: Seq<u64>)
    requires
        1 <= g.len() <= 128,
    ensures
        group_width(g) <= 64,
        group_codes(packed(g, group_width(g)), group_width(g), g.len()) == g,
        zero_from(packed(g, group_width(g)), (g.len() * group_width(g)) as int),
        packed(g, group_width(g)).len() == packed_len(g.len(), group_width(g)),
{
    let w = group_width(g);
    let bytes = packed(g, w);
    lemma_group_width(g);
    assert forall|t: int| (g.len() * w) as int <= t < 8 * bytes.len() implies #[trigger] stream_bit(bytes, t) == 0 by {
        lemma_packed_bit(g, w, t);
    }
    assert forall|j: int| 0 <= j < g.len() implies #[trigger] group_codes(bytes, w, g.len())[j] == g[j] by {
        let sb = |t: int| stream_bit(bytes, t);
        let eb = |t: int| enc_bit(g, w, t);
        let xb = |k: int| (g[j] as nat / pow2(k as nat)) % 2;
        lemma_field_is_bitsum(bytes, w * j, w);
        if w > 0 {
            assert forall|k: int| 0 <= k < w implies #[trigger] sb(w * j + k) == xb(0 + k) by {
                let t = w * j + k;
                assert(0 <= t < g.len() * w) by (nonlinear_arith)
                    requires
                        0 <= j < g.len(),
                        0 <= k < w,
                        t == w * j + k,
                ;
                assert(8 * packed_len(g.len(), w) >= g.len() * w);
                lemma_packed_bit(g, w, t);
                vstd::arithmetic::div_mod::lemma_fundamental_div_mod_converse(t, w as int, j, k);
                assert(t / (w as int) == j);
                assert(t % (w as int) == k);
            }
        }
        lemma_bitsum_ext(sb, w * j, xb, 0, w);
        lemma_bitsum_of_bits(g[j] as nat, w);
        vstd::arithmetic::div_mod::lemma_small_mod(g[j] as nat, pow2(w));
    }
    assert(group_codes(bytes, w, g.len()) =~= g);
}


/// Reading the varint of `x`, after `k` bytes worth `acc`, gives `acc + x * 2^(7k)`.
proof fn lemma_varint_from(x: u64, input: Seq<u8>, pos: int, k: nat, acc: nat)
    requires
        0 <= pos,
        pos + varint(x).len() <= input.len(),
        input.subrange(pos, pos + varint(x).len()) == varint(x),
        k < 10,
        acc < pow2(7 * k),
        acc + x * pow2(7 * k) < pow2(64),
    ensures
        varint_from(input, pos, k, acc) == Ok::<(u64, int), FormatError>(((acc + x * pow2(7 * k)) as u64, pos + varint(x).len())),
    decreases x,
{
    vstd::arithmetic::power2::lemma2_to64();
    vstd::arithmetic::power2::lemma2_to64_rest();
    lemma_pow2_pos(7 * k);
    let b = input[pos];
    assert(b == varint(x)[0]);
    if x < 128 {
        assert(b == x);
        if k == 9 {
            assert(pow2(63) == 0x8000_0000_0000_0000);
            assert(x <= 1) by (nonlinear_arith)
                requires
                    acc + x * pow2(63) < pow2(64),
                    pow2(64) == 2 * pow2(63),
            ;
        }
        assert(b % 128 == x);
    } else {
        assert(b == x % 128 + 128);
        assert(b % 128 == x % 128);
        lemma_pow2_adds(7 * k, 7);
        assert(pow2(7 * (k + 1)) == pow2(7 * k) * 128);
        assert(k < 9) by {
            if k >= 9 {
                vstd::arithmetic::power2::lemma_pow2_strictly_increases(63, 7 * k);
                assert(x * pow2(7 * k) >= 128 * pow2(63)) by (nonlinear_arith)
                    requires
                        x >= 128,
                        pow2(7 * k) >= pow2(63),
                ;
            }
        }
        let acc2: nat = (acc + (x % 128) * pow2(7 * k)) as nat;
        let y = x / 128;
        assert(acc2 < pow2(7 * (k + 1))) by (nonlinear_arith)
            requires
                acc < pow2(7 * k),
                x % 128 < 128,
                acc2 == acc + (x % 128) * pow2(7 * k),
                pow2(7 * (k + 1)) == pow2(7 * k) * 128,
        ;
        assert(acc2 + y * pow2(7 * (k + 1)) == acc + x * pow2(7 * k)) by (nonlinear_arith)
            requires
                acc2 == acc + (x % 128) * pow2(7 * k),
                pow2(7 * (k + 1)) == pow2(7 * k) * 128,
                x == 128 * y + x % 128,
        ;
        let rest = varint(y);
        assert(varint(x) == seq![b] + rest);
        assert(input.subrange(pos + 1, pos + 1 + rest.len()) =~= input.subrange(pos, pos + varint(x).len()).subrange(1, 1 + rest.len() as int));
        assert((seq![b] + rest).subrange(1, 1 + rest.len() as int) =~= rest);
        lemma_varint_from(y, input, pos + 1, k + 1, acc2);
    }
}

proof fn lemma_varints_concat(a: Seq<u64>, b: Seq<u64>)
    ensures
        varints(a + b) == varints(a) + varints(b),
    decreases b.len(),
{
    if b.len() == 0 {
        assert(a + b =~= a);
    } else {
        lemma_varints_concat(a, b.drop_last());
        assert((a + b).drop_last() =~= a + b.drop_last());
        assert((a + b).last() == b.last());
    }
}

/// Applying codes in two runs is applying them all at once.
proof fn lemma_apply_codes_concat(acc: Seq<i64>, a: Seq<u64>, b: Seq<u64>)
    ensures
        apply_codes(apply_codes(acc, a), b) == apply_codes(acc, a + b),
    decreases b.len(),
{
    if b.len() == 0 {
        assert(a + b =~= a);
    } else {
        lemma_apply_codes_concat(acc, a, b.drop_last());
        assert((a + b).drop_last() =~= a + b.drop_last());
        assert((a + b).last() == b.last());
    }
}

proof fn lemma_apply_codes_len(acc: Seq<i64>, codes: Seq<u64>)
    ensures
        apply_codes(acc, codes).len() == acc.len() + codes.len(),
    decreases codes.len(),
{
    if codes.len() > 0 {
        lemma_apply_codes_len(acc, codes.drop_last());
    }
}

/// Running the zigzag deltas of a column from its first value rebuilds the column.
proof fn lemma_deltas_rebuild(v: Seq<i64>)
    requires
        v.len() >= 1,
    ensures
        apply_codes(seq![v[0]], delta_codes(v)) == v,
    decreases v.len(),
{
    if v.len() == 1 {
        assert(delta_codes(v) =~= Seq::<u64>::empty());
        assert(v =~= seq![v[0]]);
    } else {
        let p = v.drop_last();
        lemma_deltas_rebuild(p);
        assert(delta_codes(v).drop_last() =~= delta_codes(p));
        let d = i64_specs::wrapping_sub(v.last(), p.last());
        assert(delta_codes(v).last() == zz(d));
        lemma_unzz_zz(d);
        lemma_apply_codes_len(seq![v[0]], delta_codes(p));
        assert(p[0] == v[0]);
        assert(i64_specs::wrapping_add(p.last(), d) == v.last());
        assert(apply_codes(seq![v[0]], delta_codes(v)) =~= v);
    }
}


proof fn lemma_varint_column(codes: Seq<u64>, i: int, input: Seq<u8>, pos: int, acc: Seq<i64>)
    requires
        0 <= i <= codes.len(),
        0 <= pos,
        acc.len() >= 1,
        pos + varints(codes.subrange(i, codes.len() as int)).len() <= input.len(),
        input.subrange(pos, pos + varints(codes.subrange(i, codes.len() as int)).len())
            == varints(codes.subrange(i, codes.len() as int)),
    ensures
        varint_column(input, pos, (codes.len() - i) as nat, acc) == Ok::<(Seq<i64>, int), FormatError>((
            apply_codes(acc, codes.subrange(i, codes.len() as int)),
            pos + varints(codes.subrange(i, codes.len() as int)).len(),
        )),
    decreases codes.len() - i,
{
    let tail = codes.subrange(i, codes.len() as int);
    if i == codes.len() {
        assert(tail =~= Seq::<u64>::empty());
    } else {
        let x = codes[i];
        let rest = codes.subrange(i + 1, codes.len() as int);
        assert(tail =~= seq![x] + rest);
        lemma_varints_concat(seq![x], rest);
        assert(seq![x].drop_last() =~= Seq::<u64>::empty());
        assert(seq![x].last() == x);
        assert(varints(Seq::<u64>::empty()) == Seq::<u8>::empty());
        assert(Seq::<u8>::empty() + varint(x) =~= varint(x));
        assert(varints(seq![x]) == varint(x));
        let n = varint(x).len();
        let m = varints(rest).len();
        assert(input.subrange(pos, pos + n) =~= input.subrange(pos, pos + n + m).subrange(0, n as int));
        assert((varint(x) + varints(rest)).subrange(0, n as int) =~= varint(x));
        vstd::arithmetic::power2::lemma2_to64();
        vstd::arithmetic::power2::lemma2_to64_rest();
        assert(pow2(0) == 1);
        assert(0 + x * pow2(7 * 0) == x) by (nonlinear_arith)
            requires
                pow2(7 * 0) == 1,
        ;
        lemma_varint_from(x, input, pos, 0, 0);
        assert(varint_at(input, pos) == Ok::<(u64, int), FormatError>((x, pos + n)));
        assert(input.subrange(pos + n, pos + n + m) =~= input.subrange(pos, pos + n + m).subrange(n as int, (n + m) as int));
        assert((varint(x) + varints(rest)).subrange(n as int, (n + m) as int) =~= varints(rest));
        let acc2 = acc.push(i64_specs::wrapping_add(acc.last(), unzz(x)));
        assert(apply_codes(acc, seq![x]) == acc2) by {
            assert(seq![x].drop_last() =~= Seq::<u64>::empty());
            assert(apply_codes(acc, Seq::<u64>::empty()) == acc);
            assert(seq![x].last() == x);
        }
        lemma_varint_column(codes, i + 1, input, pos + n, acc2);
        lemma_apply_codes_concat(acc, seq![x], rest);
    }
}

proof fn lemma_bitpack_column(codes: Seq<u64>, i: int, input: Seq<u8>, pos: int, acc: Seq<i64>)
    requires
        0 <= i <= codes.len(),
        0 <= pos,
        acc.len() >= 1,
        pos + groups_from(codes, i).len() <= input.len(),
        input.subrange(pos, pos + groups_from(codes, i).len()) == groups_from(codes, i),
    ensures
        bitpack_column(input, pos, (codes.len() - i) as nat, acc) == Ok::<(Seq<i64>, int), FormatError>((
            apply_codes(acc, codes.subrange(i, codes.len() as int)),
            pos + groups_from(codes, i).len(),
        )),
    decreases codes.len() - i,
{
    let tail = codes.subrange(i, codes.len() as int);
    if i == codes.len() {
        assert(tail =~= Seq::<u64>::empty());
    } else {
        let j = if i + 128 < codes.len() { i + 128 } else { codes.len() as int };
        let g = codes.subrange(i, j);
        let rest = codes.subrange(j, codes.len() as int);
        lemma_group_roundtrip(g);
        let w = group_width(g);
        let bytes = packed(g, w);
        let gb = group_bytes(g);
        let n = gb.len();
        let m = groups_from(codes, j).len();
        assert(groups_from(codes, i) == gb + groups_from(codes, j));
        assert(input.subrange(pos, pos + n + m)[0] == input[pos]);
        assert((gb + groups_from(codes, j))[0] == gb[0]);
        assert(input[pos] == gb[0]);
        assert(gb[0] == w as u8);
        let count: nat = if ((codes.len() - i) as nat) < 128 { (codes.len() - i) as nat } else { 128 };
        assert(count == g.len());
        let start = pos + 1;
        let end = start + packed_len(count, w);
        assert(end == pos + n);
        assert(input.subrange(start, end) =~= input.subrange(pos, pos + n + m).subrange(1, n as int));
        assert(gb.subrange(1, n as int) =~= bytes);
        assert((gb + groups_from(codes, j)).subrange(1, n as int) =~= gb.subrange(1, n as int));
        assert(input.subrange(pos + n, pos + n + m) =~= input.subrange(pos, pos + n + m).subrange(n as int, (n + m) as int));
        assert((gb + groups_from(codes, j)).subrange(n as int, (n + m) as int) =~= groups_from(codes, j));
        let acc2 = apply_codes(acc, g);
        lemma_apply_codes_len(acc, g);
        lemma_bitpack_column(codes, j, input, pos + n, acc2);
        lemma_apply_codes_concat(acc, g, rest);
        assert(g + rest =~= tail);
    }
}

proof fn lemma_i64_u64_cast(x: i64)
    ensures
        (x as u64) as i64 == x,
{
    assert((x as u64) as i64 == x) by (bit_vector);
}

pub(crate) proof fn lemma_le64_concat(v: Seq<i64>)
    ensures
        le64_concat(v).len() == 8 * v.len(),
        forall|i: int| 0 <= i < v.len() ==> #[trigger] u64_at(le64_concat(v), 8 * i) as i64 == v[i],
    decreases v.len(),
{
    if v.len() > 0 {
        let p = v.drop_last();
        lemma_le64_concat(p);
        let x = v.last();
        crate::le::lemma_le64_roundtrip(x as u64);
        lemma_i64_u64_cast(x);
        let a = le64_concat(p);
        let b = le64(x as u64);
        let s = a + b;
        assert(le64_concat(v) == s);
        assert forall|i: int| 0 <= i < v.len() implies #[trigger] u64_at(le64_concat(v), 8 * i) as i64 == v[i] by {
            if i < v.len() - 1 {
                assert(s[8 * i] == a[8 * i]);
                assert(s[8 * i + 1] == a[8 * i + 1]);
                assert(s[8 * i + 2] == a[8 * i + 2]);
                assert(s[8 * i + 3] == a[8 * i + 3]);
                assert(s[8 * i + 4] == a[8 * i + 4]);
                assert(s[8 * i + 5] == a[8 * i + 5]);
                assert(s[8 * i + 6] == a[8 * i + 6]);
                assert(s[8 * i + 7] == a[8 * i + 7]);
                assert(u64_at(s, 8 * i) == u64_at(a, 8 * i));
                assert(u64_at(a, 8 * i) as i64 == p[i]);
                assert(p[i] == v[i]);
            } else {
                assert(8 * i == a.len());
                assert(s.subrange(8 * i, 8 * i + 8) =~= b);
                assert(u64_at(s, 8 * i) == x as u64);
            }
        }
    }
}

proof fn lemma_raw_roundtrip(v: Seq<i64>)
    requires
        v.len() <= MAX_ROWS,
    ensures
        restore_column(transform_column(v, Layout::Raw), v.len(), Layout::Raw) == Ok::<Seq<i64>, FormatError>(v),
{
    let t = transform_column(v, Layout::Raw);
    lemma_le64_concat(v);
    assert(Seq::new(v.len(), |i: int| u64_at(t, 8 * i) as i64) =~= v);
}

proof fn lemma_delta_head(v: Seq<i64>, layout: Layout)
    requires
        1 <= v.len(),
        layout != Layout::Raw,
    ensures
        transform_column(v, layout).len() >= 8,
        u64_at(transform_column(v, layout), 0) as i64 == v[0],
        apply_codes(seq![v[0]], delta_codes(v)) == v,
{
    let t = transform_column(v, layout);
    let head = le64(v[0] as u64);
    crate::le::lemma_le64_roundtrip(v[0] as u64);
    lemma_i64_u64_cast(v[0]);
    assert(t.subrange(0, 8) =~= head);
    lemma_deltas_rebuild(v);
}

proof fn lemma_varint_roundtrip(v: Seq<i64>)
    requires
        1 <= v.len() <= MAX_ROWS,
    ensures
        restore_column(transform_column(v, Layout::Varint), v.len(), Layout::Varint) == Ok::<Seq<i64>, FormatError>(v),
{
    let t = transform_column(v, Layout::Varint);
    let codes = delta_codes(v);
    lemma_delta_head(v, Layout::Varint);
    assert(codes.subrange(0, codes.len() as int) =~= codes);
    assert(t.subrange(8, t.len() as int) =~= varints(codes));
    lemma_varint_column(codes, 0, t, 8, seq![v[0]]);
}

#[verifier::rlimit(30)]
proof fn lemma_bitpack_roundtrip(v: Seq<i64>)
    requires
        1 <= v.len() <= MAX_ROWS,
    ensures
        restore_column(transform_column(v, Layout::Bitpack), v.len(), Layout::Bitpack) == Ok::<Seq<i64>, FormatError>(v),
{
    let t = transform_column(v, Layout::Bitpack);
    let codes = delta_codes(v);
    lemma_delta_head(v, Layout::Bitpack);
    assert(codes.subrange(0, codes.len() as int) =~= codes);
    assert(t.subrange(8, t.len() as int) =~= groups_from(codes, 0));
    lemma_bitpack_column(codes, 0, t, 8, seq![v[0]]);
}

/// A stored column restores to the column itself.
pub proof fn lemma_column_roundtrip(v: Seq<i64>, layout: Layout)
    requires
        v.len() <= MAX_ROWS,
    ensures
        restore_column(transform_column(v, layout), v.len(), layout) == Ok::<Seq<i64>, FormatError>(v),
{
    if layout == Layout::Raw {
        lemma_raw_roundtrip(v);
    } else if v.len() > 0 && layout == Layout::Varint {
        lemma_varint_roundtrip(v);
    } else if v.len() > 0 {
        lemma_bitpack_roundtrip(v);
    } else {
        assert(v =~= Seq::<i64>::empty());
    }
}

} // verus!
