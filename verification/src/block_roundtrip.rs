//! Why a block decodes to the columns it was encoded from.
use crate::block::{
    block_directory, block_magic, block_payload, decode_block, decode_columns, delta_codes,
    encode_block, group_bytes, group_width, groups_from, layout_id, layout_of_id, lemma_column_roundtrip,
    packed, packed_len, restore_column, stored_column, transform_column, varint, varints, Layout, MAX_BLOCK_BYTES,
};
use crate::data::{columns_error, kind_id, kind_of_id, rows_of, Kind, MAX_ROWS};
use crate::error::FormatError;
use crate::le::{le16, le32, lemma_le16_roundtrip, lemma_le32_roundtrip, u16_at, u32_at};
use crate::wrappers::{crc32_of, lz4_decoded};
use vstd::arithmetic::power2::pow2;
use vstd::prelude::*;

verus! {

/// Each column's compressed bytes decode back to its stored bytes.
pub open spec fn columns_decompress(cols: Seq<Seq<i64>>, layout: Layout) -> bool {
    forall|c: int|
        0 <= c < cols.len() ==> lz4_decoded(#[trigger] stored_column(cols[c], layout).1) == Some(
            transform_column(cols[c], layout),
        )
}

proof fn lemma_varint_len_below(x: u64, k: nat)
    requires
        k >= 1,
        x < pow2(7 * k),
    ensures
        1 <= varint(x).len() <= k,
    decreases x,
{
    if x >= 128 {
        vstd::arithmetic::power2::lemma2_to64();
        if k == 1 {
            assert(false);
        }
        let k1 = (k - 1) as nat;
        vstd::arithmetic::power2::lemma_pow2_adds(7 * k1, 7);
        assert(7 * k1 + 7 == 7 * k);
        let y = x / 128;
        assert(y < pow2(7 * k1)) by (nonlinear_arith)
            requires
                x < pow2(7 * k1) * 128,
                y == x / 128,
        ;
        lemma_varint_len_below(y, k1);
    }
}

proof fn lemma_varint_len(x: u64)
    ensures
        1 <= varint(x).len() <= 10,
{
    vstd::arithmetic::power2::lemma2_to64_rest();
    vstd::arithmetic::power2::lemma_pow2_adds(64, 6);
    vstd::arithmetic::power2::lemma_pow2_pos(6);
    lemma_varint_len_below(x, 10);
}

proof fn lemma_varints_len(codes: Seq<u64>)
    ensures
        varints(codes).len() <= 10 * codes.len(),
    decreases codes.len(),
{
    if codes.len() > 0 {
        lemma_varints_len(codes.drop_last());
        lemma_varint_len(codes.last());
    }
}

proof fn lemma_groups_len(codes: Seq<u64>, i: int)
    requires
        0 <= i <= codes.len(),
    ensures
        groups_from(codes, i).len() <= 9 * (codes.len() - i),
    decreases codes.len() - i,
{
    if i < codes.len() {
        let j = if i + 128 < codes.len() { i + 128 } else { codes.len() as int };
        let g = codes.subrange(i, j);
        crate::block::lemma_group_width(g);
        let w = group_width(g);
        let n = g.len();
        assert(packed_len(n, w) <= 8 * n) by (nonlinear_arith)
            requires
                w <= 64,
                packed_len(n, w) == (n * w + 7) / 8,
        ;
        assert(group_bytes(g).len() == 1 + packed(g, w).len());
        lemma_groups_len(codes, j);
    }
}

/// The stored bytes of a column are at most ten per value, the bound that decoding checks.
proof fn lemma_transform_len(v: Seq<i64>, layout: Layout)
    requires
        v.len() <= MAX_ROWS,
    ensures
        transform_column(v, layout).len() <= 10 * v.len(),
{
    if layout == Layout::Raw {
        crate::block::lemma_le64_concat(v);
    } else if v.len() > 0 {
        crate::le::lemma_le64_roundtrip(v[0] as u64);
        let codes = delta_codes(v);
        if layout == Layout::Varint {
            lemma_varints_len(codes);
        } else {
            lemma_groups_len(codes, 0);
        }
    }
}

proof fn lemma_directory(cols: Seq<Seq<i64>>, layout: Layout)
    ensures
        block_directory(cols, layout).len() == 8 * cols.len(),
        forall|c: int|
            0 <= c < cols.len() ==> block_directory(cols, layout).subrange(8 * c, 8 * c + 8)
                == #[trigger] stored_column(cols[c], layout).0,
    decreases cols.len(),
{
    if cols.len() > 0 {
        let p = cols.drop_last();
        lemma_directory(p, layout);
        let a = block_directory(p, layout);
        let e = stored_column(cols.last(), layout).0;
        assert(e.len() == 8);
        assert forall|c: int| 0 <= c < cols.len() implies block_directory(cols, layout).subrange(8 * c, 8 * c + 8)
            == #[trigger] stored_column(cols[c], layout).0 by {
            if c < p.len() {
                assert((a + e).subrange(8 * c, 8 * c + 8) =~= a.subrange(8 * c, 8 * c + 8));
                assert(p[c] == cols[c]);
            } else {
                assert((a + e).subrange(8 * c, 8 * c + 8) =~= e);
            }
        }
    }
}

proof fn lemma_payload_prefix(cols: Seq<Seq<i64>>, layout: Layout, c: int)
    requires
        0 <= c <= cols.len(),
    ensures
        block_payload(cols.take(c), layout).len() <= block_payload(cols, layout).len(),
        block_payload(cols, layout).subrange(0, block_payload(cols.take(c), layout).len() as int)
            == block_payload(cols.take(c), layout),
    decreases cols.len(),
{
    if c == cols.len() {
        assert(cols.take(c) =~= cols);
        assert(block_payload(cols, layout).subrange(0, block_payload(cols, layout).len() as int)
            =~= block_payload(cols, layout));
    } else {
        let p = cols.drop_last();
        assert(p.take(c) =~= cols.take(c));
        lemma_payload_prefix(p, layout, c);
        let a = block_payload(p, layout);
        let z = stored_column(cols.last(), layout).1;
        let k = block_payload(cols.take(c), layout).len() as int;
        assert((a + z).subrange(0, k) =~= a.subrange(0, k));
    }
}

proof fn lemma_payload_column(cols: Seq<Seq<i64>>, layout: Layout, c: int)
    requires
        0 <= c < cols.len(),
    ensures
        ({
            let start = block_payload(cols.take(c), layout).len() as int;
            let z = stored_column(cols[c], layout).1;
            &&& block_payload(cols.take(c + 1), layout) == block_payload(cols.take(c), layout) + z
            &&& start + z.len() <= block_payload(cols, layout).len()
            &&& block_payload(cols, layout).subrange(start, start + z.len()) == z
        }),
{
    let next = cols.take(c + 1);
    assert(next.drop_last() =~= cols.take(c));
    assert(next.last() == cols[c]);
    lemma_payload_prefix(cols, layout, c + 1);
    let whole = block_payload(cols, layout);
    let a = block_payload(cols.take(c), layout);
    let z = stored_column(cols[c], layout).1;
    let start = a.len() as int;
    assert(whole.subrange(start, start + z.len()) =~= whole.subrange(0, start + z.len()).subrange(start, start + z.len()));
    assert((a + z).subrange(start, start + z.len()) =~= z);
}

/// The facts about an encoded block that its decoding reads.
proof fn lemma_block_fields(kind: Kind, cols: Seq<Seq<i64>>, layout: Layout)
    requires
        columns_error(cols) is None,
        encode_block(kind, cols, layout).len() <= MAX_BLOCK_BYTES,
    ensures
        ({
            let input = encode_block(kind, cols, layout);
            let dir = block_directory(cols, layout);
            let pay = block_payload(cols, layout);
            &&& input.len() == 80 + pay.len() + 4
            &&& input.subrange(0, 8) == block_magic()
            &&& crc32_of(input.subrange(0, input.len() - 4)) == u32_at(input, input.len() - 4)
            &&& input[8] == layout_id(layout)
            &&& input[9] == kind_id(kind)
            &&& u16_at(input, 10) == 8
            &&& u32_at(input, 12) == rows_of(cols)
            &&& forall|c: int| 0 <= c < 8 ==> input.subrange(16 + 8 * c, 24 + 8 * c) == #[trigger] stored_column(cols[c], layout).0
            &&& input.subrange(80, 80 + pay.len() as int) == pay
        }),
{
    let input = encode_block(kind, cols, layout);
    let dir = block_directory(cols, layout);
    let pay = block_payload(cols, layout);
    let head = block_magic() + seq![layout_id(layout), kind_id(kind)] + le16(cols.len() as u16) + le32(rows_of(cols) as u32);
    let body = head + dir + pay;
    lemma_directory(cols, layout);
    assert(head.len() == 16);
    assert(input == body + le32(crc32_of(body)));
    lemma_le32_roundtrip(crc32_of(body));
    lemma_le16_roundtrip(8);
    lemma_le32_roundtrip(rows_of(cols) as u32);
    assert(input.subrange(0, input.len() - 4) =~= body);
    assert(input.subrange(input.len() - 4, input.len() as int) =~= le32(crc32_of(body)));
    assert(input.subrange(0, 8) =~= block_magic());
    assert(input.subrange(10, 12) =~= le16(8));
    assert(input.subrange(12, 16) =~= le32(rows_of(cols) as u32));
    assert(rows_of(cols) <= MAX_ROWS);
    assert forall|c: int| 0 <= c < 8 implies input.subrange(16 + 8 * c, 24 + 8 * c) == #[trigger] stored_column(cols[c], layout).0 by {
        assert(input.subrange(16 + 8 * c, 24 + 8 * c) =~= dir.subrange(8 * c, 8 * c + 8));
    }
    assert(input.subrange(80, 80 + pay.len() as int) =~= pay);
}

proof fn lemma_column_rows(cols: Seq<Seq<i64>>, layout: Layout, c: int)
    requires
        columns_error(cols) is None,
        0 <= c < 8,
    ensures
        cols[c].len() == rows_of(cols),
        transform_column(cols[c], layout).len() <= rows_of(cols) * 10,
        restore_column(transform_column(cols[c], layout), rows_of(cols), layout)
            == Ok::<Seq<i64>, FormatError>(cols[c]),
{
    let v = cols[c];
    assert(v.len() == rows_of(cols)) by {
        if v.len() != rows_of(cols) {
            assert(0 <= c < cols.len() && cols[c].len() != rows_of(cols));
        }
    }
    lemma_transform_len(v, layout);
    lemma_column_roundtrip(v, layout);
}

proof fn lemma_entry_fields(input: Seq<u8>, d: int, t: nat, z: nat)
    requires
        0 <= d,
        d + 8 <= input.len(),
        t < 0x1_0000_0000,
        z < 0x1_0000_0000,
        input.subrange(d, d + 8) == le32(t as u32) + le32(z as u32),
    ensures
        u32_at(input, d) == t,
        u32_at(input, d + 4) == z,
{
    lemma_le32_roundtrip(t as u32);
    lemma_le32_roundtrip(z as u32);
    assert(input.subrange(d, d + 4) =~= input.subrange(d, d + 8).subrange(0, 4));
    assert(input.subrange(d + 4, d + 8) =~= input.subrange(d, d + 8).subrange(4, 8));
    assert((le32(t as u32) + le32(z as u32)).subrange(0, 4) =~= le32(t as u32));
    assert((le32(t as u32) + le32(z as u32)).subrange(4, 8) =~= le32(z as u32));
}

proof fn lemma_column_entry(kind: Kind, cols: Seq<Seq<i64>>, layout: Layout, c: int)
    requires
        columns_error(cols) is None,
        encode_block(kind, cols, layout).len() <= MAX_BLOCK_BYTES,
        0 <= c < 8,
    ensures
        u32_at(encode_block(kind, cols, layout), 16 + 8 * c) == transform_column(cols[c], layout).len(),
        u32_at(encode_block(kind, cols, layout), 16 + 8 * c + 4) == stored_column(cols[c], layout).1.len(),
{
    let input = encode_block(kind, cols, layout);
    let t = transform_column(cols[c], layout);
    let z = stored_column(cols[c], layout).1;
    assert(input.subrange(16 + 8 * c, 24 + 8 * c) == stored_column(cols[c], layout).0
        && input.len() == 84 + block_payload(cols, layout).len()) by {
        lemma_block_fields(kind, cols, layout);
    }
    assert(t.len() <= 10 * MAX_ROWS) by {
        lemma_column_rows(cols, layout, c);
    }
    assert(z.len() <= block_payload(cols, layout).len()) by {
        lemma_payload_column(cols, layout, c);
    }
    lemma_entry_fields(input, 16 + 8 * c, t.len(), z.len());
}

proof fn lemma_column_bytes(kind: Kind, cols: Seq<Seq<i64>>, layout: Layout, c: int)
    requires
        columns_error(cols) is None,
        encode_block(kind, cols, layout).len() <= MAX_BLOCK_BYTES,
        0 <= c < 8,
    ensures
        ({
            let input = encode_block(kind, cols, layout);
            let pos: int = 80 + block_payload(cols.take(c), layout).len() as int;
            let z = stored_column(cols[c], layout).1;
            &&& z.len() <= input.len() - 4 - pos
            &&& input.subrange(pos, pos + z.len() as int) == z
            &&& 80 + block_payload(cols.take(c + 1), layout).len() == pos + z.len()
            &&& cols.take(c).push(cols[c]) == cols.take(c + 1)
        }),
{
    let input = encode_block(kind, cols, layout);
    let pay = block_payload(cols, layout);
    let z = stored_column(cols[c], layout).1;
    let pos: int = 80 + block_payload(cols.take(c), layout).len() as int;
    let start = pos - 80;
    assert(input.subrange(80, 80 + pay.len() as int) == pay && input.len() == 84 + pay.len()) by {
        lemma_block_fields(kind, cols, layout);
    }
    lemma_payload_column(cols, layout, c);
    assert(input.subrange(pos, pos + z.len() as int) =~= input.subrange(80, 80 + pay.len() as int).subrange(start, start + z.len() as int));
    assert(cols.take(c).push(cols[c]) =~= cols.take(c + 1));
}

/// Decoding the columns of an encoded block from column `c` on gives all of them back.
proof fn lemma_decode_columns(kind: Kind, cols: Seq<Seq<i64>>, layout: Layout, c: nat)
    requires
        columns_error(cols) is None,
        encode_block(kind, cols, layout).len() <= MAX_BLOCK_BYTES,
        columns_decompress(cols, layout),
        c <= 8,
    ensures
        decode_columns(
            encode_block(kind, cols, layout),
            c,
            80 + block_payload(cols.take(c as int), layout).len() as int,
            rows_of(cols),
            layout,
            cols.take(c as int),
        ) == Ok::<(Seq<Seq<i64>>, int), FormatError>((cols, encode_block(kind, cols, layout).len() - 4)),
    decreases 8 - c,
{
    if c == 8 {
        lemma_block_fields(kind, cols, layout);
        assert(cols.take(8) =~= cols);
    } else {
        let ci = c as int;
        lemma_column_rows(cols, layout, ci);
        lemma_column_entry(kind, cols, layout, ci);
        lemma_column_bytes(kind, cols, layout, ci);
        lemma_decode_columns(kind, cols, layout, c + 1);
    }
}

/// An encoded block that fits the size limit decodes to the schema and columns it was
/// encoded from, given that each compressed column decodes to its stored bytes.
pub proof fn lemma_block_roundtrip(kind: Kind, cols: Seq<Seq<i64>>, layout: Layout)
    requires
        columns_error(cols) is None,
        encode_block(kind, cols, layout).len() <= MAX_BLOCK_BYTES,
        columns_decompress(cols, layout),
    ensures
        decode_block(encode_block(kind, cols, layout)) == Ok::<(Kind, Seq<Seq<i64>>), FormatError>((kind, cols)),
{
    lemma_block_fields(kind, cols, layout);
    lemma_decode_columns(kind, cols, layout, 0);
    assert(cols.take(0) =~= Seq::<Seq<i64>>::empty());
    assert(block_payload(Seq::<Seq<i64>>::empty(), layout) == Seq::<u8>::empty());
    assert(layout_of_id(layout_id(layout)) == Some(layout));
    assert(kind_of_id(kind_id(kind)) == Some(kind));
}

} // verus!
