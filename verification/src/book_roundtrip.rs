//! Why a book block decodes to the columns it was encoded from.
use crate::adaptive::{offset_summary, quotients_of, rows_invalid};
use crate::book::{
    book_column, book_column_at, book_columns, book_columns_at, book_decoded, book_encoded, book_magic,
    byte_planes, column_parts, count_planes, expand_runs, plane_word, planes_of, planes_restored, run_word,
    runs_of, uses_runs, BOOK_MAX_BYTES,
};
use crate::data::MAX_ROWS;
use crate::error::FormatError;
use crate::quotient::lemma_quotients;
use crate::le::{le32, le64, u32_at, u64_at};
use crate::wrappers::{crc32_of, lz4_compressed, lz4_decoded};
use vstd::prelude::*;
use vstd::std_specs::bits::u64_leading_zeros;

verus! {

/// The low `k` bytes of a word.
pub open spec fn low_bytes(q: u64, k: u64) -> u64 {
    if k >= 8 {
        q
    } else {
        q & ((1u64 << (8 * k)) - 1) as u64
    }
}

proof fn lemma_byte_step(q: u64, k: u64)
    requires
        1 <= k <= 8,
    ensures
        low_bytes(q, (k - 1) as u64) | (((q >> (8 * (k - 1)) as u64) as u8 as u64) << (8 * (k - 1)) as u64) == low_bytes(q, k),
{
    assert(low_bytes(q, (k - 1) as u64) | (((q >> (8 * (k - 1)) as u64) as u8 as u64) << (8 * (k - 1)) as u64) == low_bytes(q, k))
        by (bit_vector)
        requires
            1 <= k <= 8,
    ;
}

proof fn lemma_low_bytes_all(q: u64, w: u64)
    requires
        w <= 8,
        w < 8 ==> q >> (8 * w) == 0,
    ensures
        low_bytes(q, w) == q,
{
    assert(low_bytes(q, w) == q) by (bit_vector)
        requires
            w <= 8,
            w < 8 ==> q >> (8 * w) == 0,
    ;
}

/// Byte plane `b` holds byte `b` of every quotient, plane after plane.
proof fn lemma_byte_planes(qs: Seq<u64>, w: nat)
    ensures
        byte_planes(qs, w).len() == qs.len() * w,
        forall|b: int, i: int| 0 <= b < w && 0 <= i < qs.len() ==> #[trigger] byte_planes(qs, w)[b * qs.len() + i]
            == (qs[i] >> (8 * b) as u64) as u8,
    decreases w,
{
    if w > 0 {
        let n = qs.len();
        lemma_byte_planes(qs, (w - 1) as nat);
        let a = byte_planes(qs, (w - 1) as nat);
        assert(a.len() == n * (w - 1));
        assert(n * (w - 1) + n == n * w) by (nonlinear_arith);
        assert forall|b: int, i: int| 0 <= b < w && 0 <= i < n implies #[trigger] byte_planes(qs, w)[b * n + i]
            == (qs[i] >> (8 * b) as u64) as u8 by {
            if b < w - 1 {
                assert(b * n + i < n * (w - 1)) by (nonlinear_arith)
                    requires
                        0 <= b < w - 1,
                        0 <= i < n,
                ;
            } else {
                assert(b * n + i == n * (w - 1) + i) by (nonlinear_arith)
                    requires
                        b == w - 1,
                ;
            }
        }
    } else {
        assert(qs.len() * 0 == 0);
    }
}

/// Reading the first `k` of `w` byte planes gives the low `k` bytes of each quotient.
proof fn lemma_plane_word(raw: Seq<u8>, qs: Seq<u64>, w: nat, i: int, k: nat)
    requires
        w <= 8,
        k <= w,
        0 <= i < qs.len(),
        qs.len() * w <= raw.len(),
        raw.subrange(0, (qs.len() * w) as int) == byte_planes(qs, w),
    ensures
        plane_word(raw, qs.len(), i, k) == low_bytes(qs[i], k as u64),
    decreases k,
{
    if k == 0 {
        assert(low_bytes(qs[i], 0) == 0) by (bit_vector);
    } else {
        let n = qs.len();
        lemma_plane_word(raw, qs, w, i, (k - 1) as nat);
        lemma_byte_planes(qs, w);
        let b: int = k - 1;
        assert(0 <= b * n + i < n * w) by (nonlinear_arith)
            requires
                0 <= b < w,
                0 <= i < n,
        ;
        assert(raw[b * n + i] == byte_planes(qs, w)[b * n + i]);
        assert((k - 1) * n + i == b * n + i);
        lemma_byte_step(qs[i], k as u64);
    }
}

/// Byte planes read back as the quotients, and those as the values.
pub proof fn lemma_planes_roundtrip(values: Seq<i64>, raw: Seq<u8>)
    requires
        ({
            let (base, scale, w, planes) = planes_of(values);
            &&& values.len() * w <= raw.len()
            &&& raw.subrange(0, (values.len() * w) as int) == planes
        }),
    ensures
        ({
            let (base, scale, w, planes) = planes_of(values);
            &&& w <= 8
            &&& scale >= 1
            &&& planes.len() == values.len() * w
            &&& planes_restored(raw, values.len(), base as u64, scale, w as nat) == values
        }),
{
    let (base, scale, max) = offset_summary(values);
    let (b2, s2, w, planes) = planes_of(values);
    let qs = quotients_of(values, base, scale);
    lemma_quotients(values);
    let top = (max / scale) as u64;
    vstd::std_specs::bits::axiom_u64_leading_zeros(top);
    let bits = 64 - u64_leading_zeros(top);
    assert(w == ((bits + 7) / 8) as u8);
    assert(w <= 8);
    lemma_byte_planes(qs, w as nat);
    let n = values.len();
    assert forall|i: int| 0 <= i < n implies #[trigger] planes_restored(raw, n, base as u64, scale, w as nat)[i] == values[i] by {
        let q = qs[i];
        lemma_plane_word(raw, qs, w as nat, i, w as nat);
        let ww = w as u64;
        assert(q <= top);
        assert(top >> (64 - u64_leading_zeros(top)) as u64 == 0u64 || bits == 64);
        if ww < 8 {
            let sh = (64 - u64_leading_zeros(top)) as u64;
            assert(top >> sh == 0u64);
            assert(sh <= 8 * ww);
            assert(q >> (8 * ww) == 0) by (bit_vector)
                requires
                    q <= top,
                    top >> sh == 0u64,
                    sh <= 8 * ww,
                    ww < 8,
            ;
        }
        lemma_low_bytes_all(q, ww);
    }
    assert(planes_restored(raw, n, base as u64, scale, w as nat) =~= values);
}

/// The low `k` bytes of a run length.
pub open spec fn low_bytes32(x: u32, k: u32) -> u32 {
    if k >= 4 {
        x
    } else {
        x & ((1u32 << (8 * k)) - 1) as u32
    }
}

proof fn lemma_byte_step32(x: u32, k: u32)
    requires
        1 <= k <= 4,
    ensures
        low_bytes32(x, (k - 1) as u32) | (((x >> (8 * (k - 1)) as u32) as u8 as u32) << (8 * (k - 1)) as u32) == low_bytes32(x, k),
{
    assert(low_bytes32(x, (k - 1) as u32) | (((x >> (8 * (k - 1)) as u32) as u8 as u32) << (8 * (k - 1)) as u32) == low_bytes32(x, k))
        by (bit_vector)
        requires
            1 <= k <= 4,
    ;
}

/// Count plane `b` holds byte `b` of every run length, plane after plane.
proof fn lemma_count_planes(l: Seq<u32>, k: nat)
    ensures
        count_planes(l, k).len() == l.len() * k,
        forall|b: int, i: int| 0 <= b < k && 0 <= i < l.len() ==> #[trigger] count_planes(l, k)[b * l.len() + i]
            == (l[i] >> (8 * b) as u32) as u8,
    decreases k,
{
    if k > 0 {
        let n = l.len();
        lemma_count_planes(l, (k - 1) as nat);
        assert(n * (k - 1) + n == n * k) by (nonlinear_arith);
        assert forall|b: int, i: int| 0 <= b < k && 0 <= i < n implies #[trigger] count_planes(l, k)[b * n + i]
            == (l[i] >> (8 * b) as u32) as u8 by {
            if b < k - 1 {
                assert(b * n + i < n * (k - 1)) by (nonlinear_arith)
                    requires
                        0 <= b < k - 1,
                        0 <= i < n,
                ;
            } else {
                assert(b * n + i == n * (k - 1) + i) by (nonlinear_arith)
                    requires
                        b == k - 1,
                ;
            }
        }
    } else {
        assert(l.len() * 0 == 0);
    }
}

/// Reading the run-length planes after `w` value planes gives each run's length.
proof fn lemma_run_word(raw: Seq<u8>, u_len: nat, w: nat, l: Seq<u32>, i: int, k: nat)
    requires
        k <= 4,
        0 <= i < l.len(),
        l.len() == u_len,
        raw.len() == u_len * w + u_len * 4,
        raw.subrange((u_len * w) as int, raw.len() as int) == count_planes(l, 4),
    ensures
        run_word(raw, w, u_len, i, k) == low_bytes32(l[i], k as u32),
    decreases k,
{
    if k == 0 {
        assert(low_bytes32(l[i], 0) == 0) by (bit_vector);
    } else {
        let n = u_len;
        lemma_run_word(raw, u_len, w, l, i, (k - 1) as nat);
        lemma_count_planes(l, 4);
        let b: int = k - 1;
        assert(0 <= b * n + i < n * 4) by (nonlinear_arith)
            requires
                0 <= b < 4,
                0 <= i < n,
        ;
        assert((w + b) * n + i == n * w + (b * n + i)) by (nonlinear_arith);
        assert(raw[(w + b) * n + i] == count_planes(l, 4)[b * n + i]);
        assert((w + k - 1) * n + i == (w + b) * n + i);
        lemma_byte_step32(l[i], k as u32);
    }
}

/// The first `k` runs laid out again.
pub open spec fn expanded_runs(u: Seq<i64>, l: Seq<u32>, k: nat) -> Seq<i64>
    decreases k,
{
    if k == 0 {
        Seq::empty()
    } else {
        expanded_runs(u, l, (k - 1) as nat) + Seq::new(l[k - 1] as nat, |j: int| u[k - 1])
    }
}

proof fn lemma_expanded_len(u: Seq<i64>, l: Seq<u32>, k: nat, m: nat)
    requires
        k <= m,
    ensures
        expanded_runs(u, l, k).len() <= expanded_runs(u, l, m).len(),
    decreases m - k,
{
    if k < m {
        lemma_expanded_len(u, l, k, (m - 1) as nat);
    }
}

proof fn lemma_expanded_prefix(u: Seq<i64>, l: Seq<u32>, u2: Seq<i64>, l2: Seq<u32>, k: nat)
    requires
        k <= u.len(),
        k <= u2.len(),
        k <= l.len(),
        k <= l2.len(),
        forall|j: int| 0 <= j < k ==> u[j] == u2[j] && l[j] == l2[j],
    ensures
        expanded_runs(u, l, k) == expanded_runs(u2, l2, k),
    decreases k,
{
    if k > 0 {
        lemma_expanded_prefix(u, l, u2, l2, (k - 1) as nat);
        assert(Seq::new(l[k - 1] as nat, |j: int| u[k - 1]) =~= Seq::new(l2[k - 1] as nat, |j: int| u2[k - 1]));
    }
}

/// A column's runs: one value and length per run, each at least one, laying out the column.
pub proof fn lemma_runs(c: Seq<i64>)
    requires
        c.len() <= MAX_ROWS,
    ensures
        ({
            let (u, l) = runs_of(c);
            &&& u.len() == l.len() <= c.len()
            &&& c.len() > 0 ==> u.len() > 0
            &&& forall|k: int| 0 <= k < l.len() ==> 1 <= #[trigger] l[k] <= c.len()
            &&& expanded_runs(u, l, u.len()) == c
        }),
    decreases c.len(),
{
    if c.len() > 0 {
        let p = c.drop_last();
        lemma_runs(p);
        let (u0, l0) = runs_of(p);
        let (u, l) = runs_of(c);
        let n0 = u0.len();
        if u0.len() > 0 && u0.last() == c.last() {
            assert(u == u0);
            assert(l == l0.update(n0 - 1, (l0.last() + 1) as u32));
            lemma_expanded_prefix(u0, l0, u, l, (n0 - 1) as nat);
            assert(Seq::new(l[n0 - 1] as nat, |j: int| u[n0 - 1]) =~= Seq::new(l0[n0 - 1] as nat, |j: int| u0[n0 - 1]).push(c.last()));
            assert(expanded_runs(u, l, n0) =~= expanded_runs(u0, l0, n0).push(c.last()));
            assert(c =~= p.push(c.last()));
        } else {
            assert(u == u0.push(c.last()));
            assert(l == l0.push(1u32));
            lemma_expanded_prefix(u0, l0, u, l, n0);
            assert(Seq::new(1nat, |j: int| u[n0 as int]) =~= seq![c.last()]);
            assert(c =~= p.push(c.last()));
        }
    }
}

/// Expanding runs `i..` onto the first `i` gives the column, each run fitting the rows.
proof fn lemma_expand_runs(raw: Seq<u8>, w: nat, u: Seq<i64>, l: Seq<u32>, rows: nat, i: nat)
    requires
        i <= u.len(),
        u.len() == l.len(),
        forall|k: int| 0 <= k < l.len() ==> 1 <= #[trigger] l[k],
        rows == expanded_runs(u, l, u.len()).len(),
        raw.len() == u.len() * w + u.len() * 4,
        raw.subrange((u.len() * w) as int, raw.len() as int) == count_planes(l, 4),
    ensures
        expand_runs(raw, w, u.len(), rows, u, i, expanded_runs(u, l, i)) == Ok::<Seq<i64>, FormatError>(expanded_runs(u, l, u.len())),
    decreases u.len() - i,
{
    if i < u.len() {
        lemma_run_word(raw, u.len(), w, l, i as int, 4);
        let n = run_word(raw, w, u.len(), i as int, 4);
        assert(n == l[i as int]);
        lemma_expanded_len(u, l, i + 1, u.len());
        assert(Seq::new(n as nat, |k: int| u[i as int]) =~= Seq::new(l[i as int] as nat, |j: int| u[i as int]));
        lemma_expand_runs(raw, w, u, l, rows, i + 1);
    }
}

/// What a stored column's parts are: flags and counts within bounds, the planes reading back
/// as the stored values, and those laying out the column.
proof fn lemma_parts(col: Seq<i64>, rows: nat)
    requires
        col.len() == rows,
        rows <= MAX_ROWS,
    ensures
        ({
            let (rle, count, base, scale, w, raw) = column_parts(col, rows);
            let decoded = planes_restored(raw, count, base as u64, scale, w as nat);
            &&& w <= 8
            &&& scale >= 1
            &&& count <= rows
            &&& rle ==> rows > 0 && count > 0
            &&& !rle ==> count == rows
            &&& raw.len() == count * (w + if rle { 4nat } else { 0nat })
            &&& rle ==> expand_runs(raw, w as nat, count, rows, decoded, 0, Seq::empty()) == Ok::<Seq<i64>, FormatError>(col)
            &&& !rle ==> decoded == col
        }),
{
    reveal(column_parts);
    let rle = uses_runs(col, rows);
    let (u, l) = runs_of(col);
    let input = if rle { u } else { col };
    let (base, scale, w, planes) = planes_of(input);
    let raw = if rle { planes + count_planes(l, 4) } else { planes };
    lemma_runs(col);
    let (b0, s0, mx) = offset_summary(input);
    lemma_quotients(input);
    lemma_byte_planes(quotients_of(input, b0, s0), w as nat);
    assert(raw.subrange(0, (input.len() * w) as int) =~= planes);
    lemma_planes_roundtrip(input, raw);
    let count = input.len();
    if rle {
        lemma_count_planes(l, 4);
        assert(raw.len() == count * w + count * 4);
        assert(count * w + count * 4 == count * (w + 4nat)) by (nonlinear_arith);
        assert(raw.subrange((count * w) as int, raw.len() as int) =~= count_planes(l, 4));
        lemma_expand_runs(raw, w as nat, u, l, rows, 0);
        assert(expanded_runs(u, l, 0) =~= Seq::<i64>::empty());
    } else {
        assert(count * (w + 0nat) == count * w);
    }
}

/// Whether each column's LZ4 block decodes to its stored bytes.
pub open spec fn book_decompresses(values: Seq<Seq<i64>>) -> bool {
    forall|c: int| 0 <= c < values.len() ==> lz4_decoded(lz4_compressed(#[trigger] column_parts(values[c], values[0].len()).5))
        == Some(column_parts(values[c], values[0].len()).5)
}

/// The fields of a stored column's entry, read back from its bytes.
proof fn lemma_entry_bytes(input: Seq<u8>, pos: int, head: Seq<u8>, count: u32, base: u64, scale: u64, stored: Seq<u8>)
    requires
        0 <= pos,
        head.len() == 4,
        pos + 28 + stored.len() <= input.len(),
        input.subrange(pos, pos + 28 + stored.len()) == head + le32(count) + le64(base) + le64(scale) + le32(stored.len() as u32) + stored,
    ensures
        input[pos] == head[0] && input[pos + 1] == head[1] && input[pos + 2] == head[2] && input[pos + 3] == head[3],
        u32_at(input, pos + 4) == count,
        u64_at(input, pos + 8) == base,
        u64_at(input, pos + 16) == scale,
        u32_at(input, pos + 24) == stored.len() as u32,
        input.subrange(pos + 28, pos + 28 + stored.len()) == stored,
{
    let e = input.subrange(pos, pos + 28 + stored.len());
    let a = le32(count);
    let b = le64(base);
    let c = le64(scale);
    let d = le32(stored.len() as u32);
    let x1 = head + a;
    let x2 = x1 + b;
    let x3 = x2 + c;
    let x4 = x3 + d;
    assert(e == x4 + stored);
    assert(x4.len() == 28);
    assert(e.subrange(0, 28) =~= x4);
    assert(x4.subrange(0, 24) =~= x3);
    assert(x3.subrange(0, 16) =~= x2);
    assert(x2.subrange(0, 8) =~= x1);
    assert(x1.subrange(4, 8) =~= a);
    assert(x2.subrange(8, 16) =~= b);
    assert(x3.subrange(16, 24) =~= c);
    assert(x4.subrange(24, 28) =~= d);
    assert(input[pos] == e[0] && input[pos + 1] == e[1] && input[pos + 2] == e[2] && input[pos + 3] == e[3]);
    assert(e[0] == head[0] && e[1] == head[1] && e[2] == head[2] && e[3] == head[3]);
    assert(input.subrange(pos + 4, pos + 8) =~= e.subrange(4, 8));
    assert(e.subrange(4, 8) =~= x1.subrange(4, 8));
    assert(input.subrange(pos + 8, pos + 16) =~= e.subrange(8, 16));
    assert(e.subrange(8, 16) =~= x2.subrange(8, 16));
    assert(input.subrange(pos + 16, pos + 24) =~= e.subrange(16, 24));
    assert(e.subrange(16, 24) =~= x3.subrange(16, 24));
    assert(input.subrange(pos + 24, pos + 28) =~= e.subrange(24, 28));
    assert(e.subrange(24, 28) =~= x4.subrange(24, 28));
    crate::le::lemma_u32_at(input, pos + 4, count);
    crate::le::lemma_u64_at(input, pos + 8, base);
    crate::le::lemma_u64_at(input, pos + 16, scale);
    crate::le::lemma_u32_at(input, pos + 24, stored.len() as u32);
    assert(input.subrange(pos + 28, pos + 28 + stored.len()) =~= e.subrange(28, 28 + stored.len() as int));
    assert(e.subrange(28, 28 + stored.len() as int) =~= stored);
}

/// A stored column decodes to the column, with the next entry right after it.
#[verifier::rlimit(40)]
proof fn lemma_book_column_at(input: Seq<u8>, pos: int, col: Seq<i64>, rows: nat)
    requires
        col.len() == rows,
        rows <= MAX_ROWS,
        0 <= pos,
        pos + book_column(col, rows).len() <= input.len() - 4,
        input.len() <= BOOK_MAX_BYTES,
        input.subrange(pos, pos + book_column(col, rows).len()) == book_column(col, rows),
        lz4_decoded(lz4_compressed(column_parts(col, rows).5)) == Some(column_parts(col, rows).5),
    ensures
        book_column_at(input, pos, rows) == Ok::<(Seq<i64>, int), FormatError>((col, pos + book_column(col, rows).len())),
{
    let (rle, count, base, scale, w, raw) = column_parts(col, rows);
    lemma_parts(col, rows);
    let z = lz4_compressed(raw);
    let zipped = z.len() < raw.len();
    let stored = if zipped { z } else { raw };
    let head = seq![if rle { 1u8 } else { 0u8 }, w, if zipped { 1u8 } else { 0u8 }, 0u8];
    assert(book_column(col, rows) == head + le32(count as u32) + le64(base as u64) + le64(scale) + le32(stored.len() as u32) + stored);
    assert(stored.len() < 0x1_0000_0000);
    lemma_entry_bytes(input, pos, head, count as u32, base as u64, scale, stored);
    let expanded: nat = count * (w as nat + if rle { 4nat } else { 0nat });
    assert(crate::book::book_raw(input.subrange(pos + 28, pos + 28 + stored.len()), zipped, expanded) == Ok::<Seq<u8>, FormatError>(raw));
}

/// The stored columns of the first `k` columns begin those of the first `m`.
proof fn lemma_book_columns_prefix(values: Seq<Seq<i64>>, k: nat, m: nat)
    requires
        k <= m,
    ensures
        book_columns(values, k).len() <= book_columns(values, m).len(),
        book_columns(values, m).subrange(0, book_columns(values, k).len() as int) == book_columns(values, k),
    decreases m - k,
{
    if k < m {
        lemma_book_columns_prefix(values, k, (m - 1) as nat);
        let a = book_columns(values, (m - 1) as nat);
        let x = book_column(values[m - 1], values[0].len());
        assert((a + x).subrange(0, book_columns(values, k).len() as int) =~= a.subrange(0, book_columns(values, k).len() as int));
    } else {
        assert(book_columns(values, m).subrange(0, book_columns(values, m).len() as int) =~= book_columns(values, m));
    }
}

/// Decoding the columns from the `k`-th on gives all of them back.
#[verifier::rlimit(40)]
proof fn lemma_book_columns_at(input: Seq<u8>, values: Seq<Seq<i64>>, k: nat)
    requires
        1 <= values.len() <= 64,
        !rows_invalid(values),
        book_decompresses(values),
        k <= values.len(),
        input.len() <= BOOK_MAX_BYTES,
        input.len() == 16 + book_columns(values, values.len()).len() + 4,
        input.subrange(16, 16 + book_columns(values, values.len()).len() as int) == book_columns(values, values.len()),
    ensures
        book_columns_at(input, k, values.len(), values[0].len(), 16 + book_columns(values, k).len() as int, values.take(k as int))
            == Ok::<(Seq<Seq<i64>>, int), FormatError>((values, input.len() - 4)),
    decreases values.len() - k,
{
    let cols = values.len();
    let rows = values[0].len();
    let all = book_columns(values, cols);
    if k == cols {
        assert(values.take(k as int) =~= values);
    } else {
        let col = values[k as int];
        assert(col.len() == rows) by {
            if col.len() != rows {
                assert(0 <= k < values.len() && values[k as int].len() != values[0].len());
            }
        }
        lemma_book_columns_prefix(values, k + 1, cols);
        let before = book_columns(values, k);
        let bc = book_column(col, rows);
        assert(book_columns(values, k + 1) == before + bc);
        let pos: int = 16 + before.len() as int;
        assert(input.subrange(pos, pos + bc.len()) == bc) by {
            assert(input.subrange(pos, pos + bc.len()) =~= all.subrange(0, (before.len() + bc.len()) as int).subrange(
                before.len() as int, (before.len() + bc.len()) as int));
            assert(all.subrange(0, (before.len() + bc.len()) as int) == before + bc);
            assert((before + bc).subrange(before.len() as int, (before.len() + bc.len()) as int) =~= bc);
        }
        assert(lz4_decoded(lz4_compressed(column_parts(values[k as int], values[0].len()).5)) == Some(column_parts(values[k as int],
            values[0].len()).5));
        lemma_book_column_at(input, pos, col, rows);
        assert(values.take(k as int).push(col) =~= values.take(k as int + 1));
        lemma_book_columns_at(input, values, k + 1);
    }
}

/// A book block decodes to the columns it was encoded from, given that each column's LZ4
/// block decodes to its stored bytes.
pub proof fn lemma_book_roundtrip(values: Seq<Seq<i64>>)
    requires
        book_encoded(values) is Ok,
        book_decompresses(values),
    ensures
        book_decoded(book_encoded(values).unwrap()) == Ok::<Seq<Seq<i64>>, FormatError>(values),
{
    let cols = values.len();
    let rows = values[0].len();
    let body = book_magic() + crate::le::le32(rows as u32) + crate::le::le32(cols as u32) + book_columns(values, cols);
    let input = body + crate::le::le32(crc32_of(body));
    assert(book_encoded(values).unwrap() == input);
    assert(input.subrange(0, 8) =~= book_magic());
    assert(input.subrange(0, input.len() - 4) =~= body);
    assert(input.subrange(input.len() - 4, input.len() as int) =~= crate::le::le32(crc32_of(body)));
    crate::le::lemma_u32_at(input, input.len() - 4, crc32_of(body));
    assert(input.subrange(8, 12) =~= crate::le::le32(rows as u32));
    assert(input.subrange(12, 16) =~= crate::le::le32(cols as u32));
    crate::le::lemma_u32_at(input, 8, rows as u32);
    crate::le::lemma_u32_at(input, 12, cols as u32);
    assert(input.subrange(16, 16 + book_columns(values, cols).len() as int) =~= book_columns(values, cols));
    lemma_book_columns_at(input, values, 0);
    assert(values.take(0) =~= Seq::<Seq<i64>>::empty());
}

} // verus!
