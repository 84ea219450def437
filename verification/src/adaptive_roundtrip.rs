//! Why an adaptive block decodes to the columns it was encoded from.
use crate::adaptive::{
    adaptive_block, adaptive_block_decoded, adaptive_columns, adaptive_decoded, adaptive_encoded,
    adaptive_header, adaptive_magic, ADAPTIVE_MAX_BYTES, adaptive_column, column_choice, column_plan,
    column_residuals, column_restores, columns_restore, entry_bytes, expanded_bound, order_at, order_of,
    parameters_of, plan_entries, plan_payload, predictor_id, predictor_of_id, reference_choice, rows_invalid,
    sample_len, select_of, unpacked, column_packed, delta_restore, group_count, group_unpacks, groups_unpack,
    le64_words, lemma_bit_width_le, lemma_max_prefix_u32, linear_at, offset_summary, packed_from,
    packed_group, predicted, quotient_value, quotients_of, residuals_of, simd_integers, simd_slots,
    unpack_from, Predictor,
};
use crate::block::{lemma_le_or_all, or_all};
use crate::le::{
    le32, le64, lemma_le32_roundtrip, u16_at, lemma_le64_roundtrip, lemma_u32_at, lemma_u64_at, u32_at,
    u64_at,
};
use crate::quotient::lemma_quotients;
use crate::data::{kind_id, Kind, MAX_ROWS};
use crate::wrappers::{bit_width, bitpacked, crc32_of, lz4_compressed, max_prefix};
use vstd::prelude::*;
use vstd::wrapping::i64_specs;

verus! {

/// `x` and `y` leave the same remainder modulo 2^64.
spec fn congruent(x: int, y: int) -> bool {
    x % 0x1_0000_0000_0000_0000 == y % 0x1_0000_0000_0000_0000
}

proof fn lemma_congruent_i64_equal(a: i64, b: i64)
    requires
        congruent(a as int, b as int),
    ensures
        a == b,
{
}

proof fn lemma_wrapping_add_congruent(a: i64, b: i64)
    ensures
        congruent(i64_specs::wrapping_add(a, b) as int, a + b),
{
}

proof fn lemma_signed_crop_congruent(x: int)
    ensures
        congruent(i64_specs::signed_crop(x) as int, x),
{
}

proof fn lemma_congruent_add(a: int, b: int, c: int, d: int)
    requires
        congruent(a, b),
        congruent(c, d),
    ensures
        congruent(a + c, b + d),
{
    vstd::arithmetic::div_mod::lemma_add_mod_noop(a, c, 0x1_0000_0000_0000_0000);
    vstd::arithmetic::div_mod::lemma_add_mod_noop(b, d, 0x1_0000_0000_0000_0000);
}

proof fn lemma_linear_at(o: i64, s: i64, i: nat)
    requires
        i < 0x1000_0000_0000_0000,
    ensures
        linear_at(o, s, i) == i64_specs::wrapping_add(o, i64_specs::wrapping_mul(s, i as i64)),
{
    lemma_linear_at_congruent(o, s, i);
    let m = i64_specs::wrapping_mul(s, i as i64);
    lemma_signed_crop_congruent(s * i);
    assert(congruent(o as int, o as int));
    lemma_congruent_add(o as int, o as int, m as int, s * i);
    lemma_wrapping_add_congruent(o, m);
    lemma_congruent_i64_equal(linear_at(o, s, i), i64_specs::wrapping_add(o, m));
}

proof fn lemma_linear_at_congruent(o: i64, s: i64, i: nat)
    ensures
        congruent(linear_at(o, s, i) as int, o + s * i),
    decreases i,
{
    if i > 0 {
        lemma_linear_at_congruent(o, s, (i - 1) as nat);
        let prev = linear_at(o, s, (i - 1) as nat);
        lemma_wrapping_add_congruent(prev, s);
        assert(congruent(s as int, s as int));
        lemma_congruent_add(prev as int, o + s * (i - 1), s as int, s as int);
        assert(o + s * (i - 1) + s == o + s * i) by (nonlinear_arith);
    }
}

proof fn lemma_delta_inverse(col: Seq<i64>, k: nat)
    requires
        1 <= k <= col.len(),
    ensures
        delta_restore(col[0], residuals_of(col, Seq::empty(), Predictor::Delta, col[0], 0).take(k as int)) == col.take(k as int),
    decreases k,
{
    let r = residuals_of(col, Seq::empty(), Predictor::Delta, col[0], 0);
    let rk = r.take(k as int);
    assert(rk.drop_last() =~= r.take(k - 1));
    if k == 1 {
        assert(r.take(0) =~= Seq::<i64>::empty());
        assert(delta_restore(col[0], r.take(0)) =~= Seq::<i64>::empty());
        let o = col[0];
        assert(i64_specs::wrapping_add(o, 0i64) == o) by (bit_vector);
        assert(col.take(1) =~= seq![col[0]]);
    } else {
        lemma_delta_inverse(col, (k - 1) as nat);
        let a = col[k - 2];
        let b = col[k - 1];
        assert(i64_specs::wrapping_add(a, i64_specs::wrapping_sub(b, a)) == b) by (bit_vector);
        assert(col.take(k as int) =~= col.take(k - 1).push(b));
    }
}

/// Restoring a column's residuals under the predictor that made them gives the column back:
/// for every predictor, origin and step, provided a delta column starts at its origin and a
/// reference column is at least as long.
pub proof fn lemma_predictor_inverse(col: Seq<i64>, refs: Seq<i64>, p: Predictor, origin: i64, step: i64)
    requires
        col.len() < 0x1000_0000_0000_0000,
        p == Predictor::Delta && col.len() > 0 ==> origin == col[0],
        p == Predictor::Reference ==> refs.len() >= col.len(),
    ensures
        predicted(p, residuals_of(col, refs, p, origin, step), origin, step, refs) == col,
{
    let r = residuals_of(col, refs, p, origin, step);
    match p {
        Predictor::Absolute => {},
        Predictor::Delta => {
            if col.len() > 0 {
                let r0 = residuals_of(col, Seq::empty(), Predictor::Delta, col[0], 0);
                assert(r == r0);
                lemma_delta_inverse(col, col.len());
                assert(r.take(col.len() as int) =~= r);
                assert(col.take(col.len() as int) =~= col);
            } else {
                assert(r =~= Seq::<i64>::empty());
                assert(col =~= Seq::<i64>::empty());
            }
        },
        Predictor::Linear => {
            assert forall|i: int| 0 <= i < col.len() implies #[trigger] predicted(p, r, origin, step, refs)[i] == col[i] by {
                lemma_linear_at(origin, step, i as nat);
                let v = col[i];
                let m = i64_specs::wrapping_mul(step, i as i64);
                assert(i64_specs::wrapping_add(i64_specs::wrapping_sub(i64_specs::wrapping_sub(v, origin), m),
                    i64_specs::wrapping_add(origin, m)) == v) by (bit_vector);
            }
            assert(predicted(p, r, origin, step, refs) =~= col);
        },
        Predictor::Reference => {
            assert forall|i: int| 0 <= i < col.len() implies #[trigger] predicted(p, r, origin, step, refs)[i] == col[i] by {
                let v = col[i];
                let x = refs[i];
                assert(i64_specs::wrapping_add(i64_specs::wrapping_sub(v, x), x) == v) by (bit_vector);
            }
            assert(predicted(p, r, origin, step, refs) =~= col);
        },
    }
}

proof fn lemma_le64_words(q: Seq<u64>)
    ensures
        le64_words(q).len() == 8 * q.len(),
        forall|k: int| 0 <= k < q.len() ==> le64_words(q).subrange(8 * k, 8 * k + 8) == le64(#[trigger] q[k]),
    decreases q.len(),
{
    if q.len() > 0 {
        let front = q.drop_last();
        lemma_le64_words(front);
        lemma_le64_roundtrip(q.last());
        let all = le64_words(q);
        assert(all == le64_words(front) + le64(q.last()));
        assert forall|k: int| 0 <= k < q.len() implies all.subrange(8 * k, 8 * k + 8) == le64(#[trigger] q[k]) by {
            if k < q.len() - 1 {
                assert(front[k] == q[k]);
                assert(all.subrange(8 * k, 8 * k + 8) =~= le64_words(front).subrange(8 * k, 8 * k + 8));
            } else {
                assert(all.subrange(8 * k, 8 * k + 8) =~= le64(q.last()));
            }
        }
    }
}

proof fn lemma_max_prefix_ge(values: Seq<u32>, n: int, k: int)
    requires
        0 <= k < n,
    ensures
        values[k] <= max_prefix(values, n),
    decreases n,
{
    if k < n - 1 {
        lemma_max_prefix_ge(values, n - 1, k);
    }
}

/// Unpacking the packed groups of a column from value `i` on, where they stand at `pos`,
/// appends those values and stops just past them.
proof fn lemma_unpack_groups(input: Seq<u8>, pos: int, res: Seq<i64>, i: int, base: i64, scale: u64, acc: Seq<i64>)
    requires
        0 <= i <= res.len(),
        base == offset_summary(res).0,
        scale == offset_summary(res).1,
        groups_unpack(res, i, base, scale),
        0 <= pos,
        pos + packed_from(res, i, base, scale).len() <= input.len(),
        input.subrange(pos, pos + packed_from(res, i, base, scale).len()) == packed_from(res, i, base, scale),
    ensures
        unpack_from(input, pos, (res.len() - i) as nat, base, scale, acc) == Ok::<(Seq<i64>, int), crate::error::FormatError>(
            (acc + res.subrange(i, res.len() as int), pos + packed_from(res, i, base, scale).len())),
    decreases res.len() - i,
{
    let n = res.len() as int;
    let pf = packed_from(res, i, base, scale);
    if i == n {
        assert(acc + res.subrange(n, n) =~= acc);
    } else {
        let j = if i + 128 < n { i + 128 } else { n };
        let g = res.subrange(i, j);
        let count = (j - i) as nat;
        let pg = packed_group(g, base, scale);
        let rest = packed_from(res, j, base, scale);
        assert(pf == pg + rest);
        assert(group_count((n - i) as nat) == count);
        assert(group_unpacks(g, base, scale) && groups_unpack(res, j, base, scale));
        lemma_quotients(res);
        let q = quotients_of(g, base, scale);
        let qa = quotients_of(res, base, scale);
        assert forall|k: int| 0 <= k < count implies quotient_value(#[trigger] q[k], base, scale) == g[k] by {
            assert(q[k] == qa[i + k]);
        }
        assert forall|t: int| 0 <= t < pf.len() implies input[pos + t] == #[trigger] pf[t] by {
            assert(input.subrange(pos, pos + pf.len())[t] == pf[t]);
        }
        assert forall|t: int| 0 <= t < rest.len() implies input[pos + pg.len() + t] == #[trigger] rest[t] by {
            assert(pf[pg.len() + t] == rest[t]);
        }
        assert(input[pos] == pf[0]);
        let p = pos + 1;
        if or_all(q) > u32::MAX {
            lemma_le64_words(q);
            assert(pg =~= seq![255u8] + le64_words(q));
            let read = Seq::new(count, |k: int| quotient_value(u64_at(input, p + 8 * k), base, scale));
            let words = le64_words(q);
            assert forall|t: int| 0 <= t < words.len() implies input[p + t] == #[trigger] words[t] by {
                assert(pf[1 + t] == pg[1 + t]);
            }
            assert forall|k: int| 0 <= k < count implies #[trigger] read[k] == g[k] by {
                assert(input.subrange(p + 8 * k, p + 8 * k + 8) =~= words.subrange(8 * k, 8 * k + 8));
                lemma_u64_at(input, p + 8 * k, q[k]);
            }
            assert(read =~= g);
            let next = p + 8 * count;
            assert(input.subrange(next, next + rest.len()) =~= rest);
            lemma_unpack_groups(input, next, res, j, base, scale, acc + g);
            assert(acc + g + res.subrange(j, n) =~= acc + res.subrange(i, n));
        } else {
            let ints = simd_slots(q);
            let w = bit_width(max_prefix(ints, 128));
            lemma_max_prefix_u32(ints, 128);
            vstd::arithmetic::power2::lemma2_to64();
            lemma_bit_width_le(max_prefix(ints, 128), 32);
            let len: int = if w != 0 { 16 * w as int } else { 0 };
            assert(pg =~= seq![w as u8] + if w != 0 { bitpacked(ints, w as u8) } else { Seq::<u8>::empty() });
            assert(pg.len() == 1 + len);
            let sim = simd_integers(input.subrange(p, p + 16 * w), w as u8);
            assert forall|k: int| 0 <= k < 128 implies #[trigger] sim[k] == ints[k] by {
                if w == 0 {
                    lemma_max_prefix_ge(ints, 128, k);
                } else {
                    assert forall|t: int| 0 <= t < 16 * w implies input[p + t] == #[trigger] bitpacked(ints, w as u8)[t] by {
                        assert(pf[1 + t] == pg[1 + t]);
                    }
                    assert(input.subrange(p, p + 16 * w) =~= bitpacked(ints, w as u8));
                }
            }
            assert(!(exists|k: int| count <= k < 128 && #[trigger] sim[k] != 0));
            let read = Seq::new(count, |k: int| quotient_value(sim[k] as u64, base, scale));
            assert forall|k: int| 0 <= k < count implies #[trigger] read[k] == g[k] by {
                lemma_le_or_all(q, k);
            }
            assert(read =~= g);
            let next = p + 16 * w;
            assert(input.subrange(next, next + rest.len()) =~= rest);
            lemma_unpack_groups(input, next, res, j, base, scale, acc + g);
            assert(acc + g + res.subrange(j, n) =~= acc + res.subrange(i, n));
        }
    }
}

/// The packed groups from value `i` on take at most 1025 bytes per group of 128.
proof fn lemma_packed_len(res: Seq<i64>, i: int, base: i64, scale: u64)
    requires
        0 <= i <= res.len(),
        scale >= 1,
        groups_unpack(res, i, base, scale),
    ensures
        packed_from(res, i, base, scale).len() <= ((res.len() - i + 127) / 128) * 1025,
    decreases res.len() - i,
{
    let n = res.len() as int;
    if i < n {
        let j = if i + 128 < n { i + 128 } else { n };
        let g = res.subrange(i, j);
        let q = quotients_of(g, base, scale);
        assert(group_unpacks(g, base, scale) && groups_unpack(res, j, base, scale));
        lemma_packed_len(res, j, base, scale);
        let pg = packed_group(g, base, scale);
        assert(g.len() == j - i);
        assert(q.len() == g.len());
        assert(j - i <= 128);
        assert(pg.len() <= 1025) by {
            if or_all(q) > u32::MAX {
                lemma_le64_words(q);
                assert(pg =~= seq![255u8] + le64_words(q));
                assert(pg.len() == 1 + 8 * q.len());
            } else {
                let ints = simd_slots(q);
                let w = bit_width(max_prefix(ints, 128));
                lemma_max_prefix_u32(ints, 128);
                vstd::arithmetic::power2::lemma2_to64();
                lemma_bit_width_le(max_prefix(ints, 128), 32);
                assert(pg =~= seq![w as u8] + if w != 0 { bitpacked(ints, w as u8) } else { Seq::<u8>::empty() });
                assert(w <= 32);
                if w != 0 {
                    assert(bitpacked(ints, w as u8).len() == 16 * w);
                }
            }
        }
        assert(packed_from(res, i, base, scale) == pg + packed_from(res, j, base, scale));
        assert((n - i + 127) / 128 == 1 + (n - j + 127) / 128) by (nonlinear_arith)
            requires
                i < n,
                j == if i + 128 < n { i + 128 } else { n },
        ;
    }
}

/// A window of bytes that stand at `d` stands at `d` plus its offset.
proof fn lemma_window(s: Seq<u8>, d: int, e: Seq<u8>, a: int, b: int)
    requires
        0 <= d,
        d + e.len() <= s.len(),
        s.subrange(d, d + e.len()) == e,
        0 <= a <= b <= e.len(),
    ensures
        s.subrange(d + a, d + b) == e.subrange(a, b),
{
    assert forall|t: int| 0 <= t < b - a implies s.subrange(d + a, d + b)[t] == #[trigger] e.subrange(a, b)[t] by {
        assert(s.subrange(d, d + e.len())[a + t] == e[a + t]);
    }
    assert(s.subrange(d + a, d + b) =~= e.subrange(a, b));
}

/// Where each field of an entry stands.
#[verifier::rlimit(30)]
proof fn lemma_entry_layout(column: u8, predictor: u8, reference: u8, zipped: bool, origin: i64, step: i64, base: i64,
    scale: u64, packed_len: u32, stored_len: u32)
    ensures
        ({
            let e = entry_bytes(column, predictor, reference, zipped, origin, step, base, scale, packed_len, stored_len);
            &&& e.len() == 44
            &&& e[0] == column && e[1] == predictor && e[2] == reference && e[3] == if zipped { 1u8 } else { 0u8 }
            &&& e.subrange(4, 12) == le64(origin as u64)
            &&& e.subrange(12, 20) == le64(step as u64)
            &&& e.subrange(20, 28) == le64(base as u64)
            &&& e.subrange(28, 36) == le64(scale)
            &&& e.subrange(36, 40) == le32(packed_len)
            &&& e.subrange(40, 44) == le32(stored_len)
        }),
{
    let e = entry_bytes(column, predictor, reference, zipped, origin, step, base, scale, packed_len, stored_len);
    assert(forall|v: u64| #[trigger] le64(v).len() == 8);
    assert(forall|v: u32| #[trigger] le32(v).len() == 4);
    let a0 = seq![column, predictor, reference, if zipped { 1u8 } else { 0u8 }];
    let a1 = a0 + le64(origin as u64);
    let a2 = a1 + le64(step as u64);
    let a3 = a2 + le64(base as u64);
    let a4 = a3 + le64(scale);
    let a5 = a4 + le32(packed_len);
    assert(e == a5 + le32(stored_len));
    assert(e.subrange(40, 44) =~= le32(stored_len));
    assert(e.subrange(36, 40) =~= le32(packed_len)) by {
        assert(a5.subrange(36, 40) =~= le32(packed_len));
        assert(e.subrange(36, 40) =~= a5.subrange(36, 40));
    }
    assert(e.subrange(28, 36) =~= le64(scale)) by {
        assert(a4.subrange(28, 36) =~= le64(scale));
        assert(e.subrange(28, 36) =~= a4.subrange(28, 36));
    }
    assert(e.subrange(20, 28) =~= le64(base as u64)) by {
        assert(a3.subrange(20, 28) =~= le64(base as u64));
        assert(e.subrange(20, 28) =~= a3.subrange(20, 28));
    }
    assert(e.subrange(12, 20) =~= le64(step as u64)) by {
        assert(a2.subrange(12, 20) =~= le64(step as u64));
        assert(e.subrange(12, 20) =~= a2.subrange(12, 20));
    }
    assert(e.subrange(4, 12) =~= le64(origin as u64)) by {
        assert(a1.subrange(4, 12) =~= le64(origin as u64));
        assert(e.subrange(4, 12) =~= a1.subrange(4, 12));
    }
    assert(e[0] == a0[0] && e[1] == a0[1] && e[2] == a0[2] && e[3] == a0[3]);
}

/// An entry is 44 bytes, and each field reads back at its offset.
proof fn lemma_entry_fields(s: Seq<u8>, d: int, column: u8, predictor: u8, reference: u8, zipped: bool, origin: i64,
    step: i64, base: i64, scale: u64, packed_len: u32, stored_len: u32)
    requires
        0 <= d,
        d + 44 <= s.len(),
        s.subrange(d, d + 44) == entry_bytes(column, predictor, reference, zipped, origin, step, base, scale, packed_len,
            stored_len),
    ensures
        s[d] == column,
        s[d + 1] == predictor,
        s[d + 2] == reference,
        s[d + 3] == if zipped { 1u8 } else { 0u8 },
        u64_at(s, d + 4) as i64 == origin,
        u64_at(s, d + 12) as i64 == step,
        u64_at(s, d + 20) as i64 == base,
        u64_at(s, d + 28) == scale,
        u32_at(s, d + 36) == packed_len,
        u32_at(s, d + 40) == stored_len,
{
    let e = entry_bytes(column, predictor, reference, zipped, origin, step, base, scale, packed_len, stored_len);
    lemma_entry_layout(column, predictor, reference, zipped, origin, step, base, scale, packed_len, stored_len);
    assert(s[d] == e[0] && s[d + 1] == e[1] && s[d + 2] == e[2] && s[d + 3] == e[3]) by {
        assert(s.subrange(d, d + 44)[0] == e[0]);
        assert(s.subrange(d, d + 44)[1] == e[1]);
        assert(s.subrange(d, d + 44)[2] == e[2]);
        assert(s.subrange(d, d + 44)[3] == e[3]);
    }
    lemma_window(s, d, e, 4, 12);
    lemma_window(s, d, e, 12, 20);
    lemma_window(s, d, e, 20, 28);
    lemma_window(s, d, e, 28, 36);
    lemma_window(s, d, e, 36, 40);
    lemma_window(s, d, e, 40, 44);
    lemma_u64_at(s, d + 4, origin as u64);
    lemma_u64_at(s, d + 12, step as u64);
    lemma_u64_at(s, d + 20, base as u64);
    lemma_u64_at(s, d + 28, scale);
    lemma_u32_at(s, d + 36, packed_len);
    lemma_u32_at(s, d + 40, stored_len);
    assert((origin as u64) as i64 == origin && (step as u64) as i64 == step && (base as u64) as i64 == base) by (bit_vector);
}

/// The entries of the first `k` columns: 44 bytes each, in order.
proof fn lemma_plan_entries(values: Seq<Seq<i64>>, use_lz4: bool, k: nat)
    ensures
        plan_entries(values, use_lz4, k).len() == 44 * k,
        forall|c: int| 0 <= c < k ==> plan_entries(values, use_lz4, k).subrange(44 * c, 44 * c + 44)
            == #[trigger] column_plan(values, use_lz4, c).0,
    decreases k,
{
    if k > 0 {
        let k1 = (k - 1) as nat;
        lemma_plan_entries(values, use_lz4, k1);
        let e = column_plan(values, use_lz4, k1 as int).0;
        lemma_le64_roundtrip(0);
        lemma_le32_roundtrip(0);
        assert(e.len() == 44);
        let all = plan_entries(values, use_lz4, k);
        assert(all == plan_entries(values, use_lz4, k1) + e);
        assert forall|c: int| 0 <= c < k implies all.subrange(44 * c, 44 * c + 44) == #[trigger] column_plan(values, use_lz4, c).0 by {
            if c < k1 {
                assert(all.subrange(44 * c, 44 * c + 44) =~= plan_entries(values, use_lz4, k1).subrange(44 * c, 44 * c + 44));
            } else {
                assert(all.subrange(44 * c, 44 * c + 44) =~= e);
            }
        }
    }
}

/// The stored bytes of the first `c` columns begin those of the first `k`.
proof fn lemma_plan_payload_prefix(values: Seq<Seq<i64>>, use_lz4: bool, c: nat, k: nat)
    requires
        c <= k,
    ensures
        plan_payload(values, use_lz4, c).len() <= plan_payload(values, use_lz4, k).len(),
        plan_payload(values, use_lz4, k).subrange(0, plan_payload(values, use_lz4, c).len() as int)
            == plan_payload(values, use_lz4, c),
    decreases k,
{
    if c < k {
        let k1 = (k - 1) as nat;
        lemma_plan_payload_prefix(values, use_lz4, c, k1);
        let pc = plan_payload(values, use_lz4, c);
        let pk1 = plan_payload(values, use_lz4, k1);
        assert(plan_payload(values, use_lz4, k) == pk1 + column_plan(values, use_lz4, k1 as int).1);
        assert(plan_payload(values, use_lz4, k).subrange(0, pc.len() as int) =~= pk1.subrange(0, pc.len() as int));
    } else {
        assert(plan_payload(values, use_lz4, k).subrange(0, plan_payload(values, use_lz4, k).len() as int)
            =~= plan_payload(values, use_lz4, k));
    }
}

/// A reference is taken only from the earlier columns tried.
proof fn lemma_reference_choice_previous(
    data: Seq<Seq<i64>>,
    sample: Seq<i64>,
    origin: i64,
    step: i64,
    previous: Seq<usize>,
    k: nat,
    init: (Predictor, u8, int),
)
    requires
        init.1 == 255,
        init.0 != Predictor::Reference,
        k <= previous.len(),
        forall|i: int| 0 <= i < previous.len() ==> #[trigger] previous[i] < 255,
    ensures
        ({
            let (p, r, _) = reference_choice(data, sample, origin, step, previous, k, init);
            (r == 255 && p != Predictor::Reference) || (p == Predictor::Reference && exists|t: int|
                0 <= t < k && r as int == #[trigger] previous[t] as int)
        }),
    decreases k,
{
    if k > 0 {
        lemma_reference_choice_previous(data, sample, origin, step, previous, (k - 1) as nat, init);
        let (p, r, _) = reference_choice(data, sample, origin, step, previous, k, init);
        let (p0, r0, _) = reference_choice(data, sample, origin, step, previous, (k - 1) as nat, init);
        if p == Predictor::Reference {
            if r == previous[k - 1] as u8 && (p0 != Predictor::Reference || r != r0) {
                assert(r as int == previous[k - 1] as int);
            } else {
                let t = choose|t: int| 0 <= t < k - 1 && r0 as int == #[trigger] previous[t] as int;
                assert(r as int == previous[t] as int);
            }
        }
    }
}

/// The block's bytes as the encoder lays them out: entries after the sixteen-byte header,
/// then the stored columns, then four checksum bytes.
spec fn laid_out(block: Seq<u8>, values: Seq<Seq<i64>>, use_lz4: bool) -> bool {
    let cols = values.len();
    let e = plan_entries(values, use_lz4, cols);
    let p = plan_payload(values, use_lz4, cols);
    &&& block.len() == 16 + e.len() + p.len() + 4
    &&& block[8] == if use_lz4 { 1u8 } else { 0u8 }
    &&& block.subrange(16, 16 + e.len() as int) == e
    &&& block.subrange(16 + e.len() as int, 16 + e.len() + p.len() as int) == p
}

/// The first `index` encoded columns are decoded and marked seen, and only they.
spec fn decoded_so_far(values: Seq<Seq<i64>>, decoded: Seq<Seq<i64>>, seen: Seq<bool>, index: nat) -> bool {
    let cols = values.len();
    &&& decoded.len() == cols
    &&& seen.len() == cols
    &&& forall|c: int| 0 <= c < cols ==> (#[trigger] seen[c] == (order_at(cols, c) < index))
    &&& forall|c: int| 0 <= c < cols && seen[c] ==> #[trigger] decoded[c] == values[c]
}

/// Facts about the `index`-th encoded column: which column it is, where its reference
/// stands, how long its residuals and packed bytes are.
proof fn lemma_choice_facts(values: Seq<Seq<i64>>, index: nat)
    requires
        1 <= values.len() <= 64,
        !rows_invalid(values),
        index < values.len(),
    ensures
        ({
            let cols = values.len();
            let (column, p, reference, origin, step, base, scale, packed) = column_choice(values, index as int);
            let res = column_residuals(values, index as int);
            &&& column == order_at(cols, index as int)
            &&& 0 <= column < cols
            &&& order_at(cols, column) == index
            &&& (reference == 255 && p != Predictor::Reference) || (p == Predictor::Reference && 0 <= reference < cols
                && order_at(cols, reference as int) < index)
            &&& (p == Predictor::Delta && values[column].len() > 0 ==> origin == values[column][0])
            &&& res.len() == values[0].len()
            &&& (base, scale) == (parameters_of(res).0, parameters_of(res).1)
            &&& packed == packed_from(res, 0, base, scale)
        }),
{
    reveal(column_choice);
    let cols = values.len();
    let column = order_at(cols, index as int);
    let previous = order_of(cols).take(index as int);
    let c = values[column];
    let sample = c.take(sample_len(c.len()) as int);
    let o = if c.len() > 0 { c[0] } else { 0i64 };
    let st = i64_specs::wrapping_sub(if c.len() > 1 { c[1] } else { o }, o);
    let absolute = parameters_of(sample).2 as int;
    let delta = parameters_of(residuals_of(sample, Seq::empty(), Predictor::Delta, o, st)).2 + 1;
    let first: (Predictor, int) = if delta < absolute { (Predictor::Delta, delta) } else { (Predictor::Absolute, absolute) };
    let linear = parameters_of(residuals_of(sample, Seq::empty(), Predictor::Linear, o, st)).2 as int;
    let second: (Predictor, int) = if linear < first.1 { (Predictor::Linear, linear) } else { first };
    assert forall|i: int| 0 <= i < previous.len() implies #[trigger] previous[i] < 255 by {
        assert(previous[i] == order_at(cols, i) as usize);
    }
    lemma_reference_choice_previous(values, sample, o, st, previous, previous.len(), (second.0, 255u8, second.1));
    let (p, reference, origin, step) = select_of(values, column, previous);
    if p == Predictor::Reference {
        let t = choose|t: int| 0 <= t < previous.len() && reference as int == #[trigger] previous[t] as int;
        assert(previous[t] == order_at(cols, t) as usize);
    }
    assert(values[column].len() == values[0].len());
    if p == Predictor::Reference {
        assert(values[reference as int].len() == values[0].len());
    }
}

/// What the fields of the `index`-th entry of an encoded block read.
#[verifier::rlimit(30)]
proof fn lemma_column_entry(block: Seq<u8>, values: Seq<Seq<i64>>, use_lz4: bool, index: nat)
    requires
        1 <= values.len() <= 64,
        !rows_invalid(values),
        columns_restore(values, use_lz4),
        laid_out(block, values, use_lz4),
        index < values.len(),
    ensures
        ({
            let (column, p, reference, origin, step, base, scale, packed) = column_choice(values, index as int);
            let stored = column_plan(values, use_lz4, index as int).1;
            let zipped = use_lz4 && lz4_compressed(packed).len() < packed.len();
            let d: int = 16 + 44 * index as int;
            &&& stored == if zipped { lz4_compressed(packed) } else { packed }
            &&& block[d] == column as u8
            &&& block[d + 1] == predictor_id(p)
            &&& block[d + 2] == reference
            &&& block[d + 3] == if zipped { 1u8 } else { 0u8 }
            &&& u64_at(block, d + 4) as i64 == origin
            &&& u64_at(block, d + 12) as i64 == step
            &&& u64_at(block, d + 20) as i64 == base
            &&& u64_at(block, d + 28) == scale
            &&& u32_at(block, d + 36) == packed.len()
            &&& u32_at(block, d + 40) == stored.len()
        }),
{
    let cols = values.len();
    let (column, p, reference, origin, step, base, scale, packed) = column_choice(values, index as int);
    let (entry, stored) = column_plan(values, use_lz4, index as int);
    let z = lz4_compressed(packed);
    let zipped = use_lz4 && z.len() < packed.len();
    assert(stored == if zipped { z } else { packed });
    assert(entry == entry_bytes(column as u8, predictor_id(p), reference, zipped, origin, step, base, scale,
        packed.len() as u32, stored.len() as u32));
    assert(packed.len() < 0x1_0000_0000) by {
        lemma_column_values(values, use_lz4, index, if p == Predictor::Reference { values[reference as int] } else {
            Seq::<i64>::empty() });
        let rows = values[0].len();
        assert(rows <= MAX_ROWS);
        vstd::arithmetic::div_mod::lemma_div_is_ordered(rows as int + 127, MAX_ROWS as int + 127, 128);
    }
    let e = plan_entries(values, use_lz4, cols);
    lemma_plan_entries(values, use_lz4, cols);
    let d: int = 16 + 44 * index as int;
    lemma_window(block, 16, e, 44 * index as int, 44 * index as int + 44);
    assert(block.subrange(d, d + 44) == entry);
    lemma_entry_fields(block, d, column as u8, predictor_id(p), reference, zipped, origin, step, base, scale,
        packed.len() as u32, stored.len() as u32);
}

/// Where the stored bytes of the `index`-th encoded column stand in an encoded block.
#[verifier::rlimit(30)]
proof fn lemma_column_stored(block: Seq<u8>, values: Seq<Seq<i64>>, use_lz4: bool, index: nat)
    requires
        laid_out(block, values, use_lz4),
        index < values.len(),
    ensures
        ({
            let stored = column_plan(values, use_lz4, index as int).1;
            let pos: int = 16 + 44 * values.len() + plan_payload(values, use_lz4, index).len() as int;
            &&& pos + stored.len() <= block.len() - 4
            &&& block.subrange(pos, pos + stored.len()) == stored
        }),
{
    let cols = values.len();
    let stored = column_plan(values, use_lz4, index as int).1;
    let e = plan_entries(values, use_lz4, cols);
    lemma_plan_entries(values, use_lz4, cols);
    let pl = plan_payload(values, use_lz4, cols);
    let a = plan_payload(values, use_lz4, index).len() as int;
    lemma_plan_payload_prefix(values, use_lz4, index + 1, cols);
    let next = plan_payload(values, use_lz4, index + 1);
    assert(next == plan_payload(values, use_lz4, index) + stored);
    lemma_window(pl, 0, next, a, a + stored.len());
    assert(next.subrange(a, a + stored.len()) =~= stored);
    lemma_window(block, 16 + e.len() as int, pl, a, a + stored.len());
}

/// The stored bytes of the `index`-th encoded column give back its values.
#[verifier::rlimit(30)]
proof fn lemma_column_values(values: Seq<Seq<i64>>, use_lz4: bool, index: nat, refs: Seq<i64>)
    requires
        1 <= values.len() <= 64,
        !rows_invalid(values),
        columns_restore(values, use_lz4),
        index < values.len(),
        refs == if column_choice(values, index as int).1 == Predictor::Reference { values[column_choice(values,
            index as int).2 as int] } else { Seq::<i64>::empty() },
    ensures
        ({
            let (column, p, reference, origin, step, base, scale, packed) = column_choice(values, index as int);
            let stored = column_plan(values, use_lz4, index as int).1;
            let zipped = use_lz4 && lz4_compressed(packed).len() < packed.len();
            let res = column_residuals(values, index as int);
            &&& scale != 0
            &&& packed.len() <= expanded_bound(values[0].len())
            &&& column_packed(stored, zipped, packed.len()) == Ok::<Seq<u8>, crate::error::FormatError>(packed)
            &&& unpacked(packed, values[0].len(), base, scale) == Ok::<Seq<i64>, crate::error::FormatError>(res)
            &&& predicted(p, res, origin, step, refs) == values[column]
        }),
{
    lemma_choice_facts(values, index);
    let (column, p, reference, origin, step, base, scale, packed) = column_choice(values, index as int);
    let res = column_residuals(values, index as int);
    let stored = column_plan(values, use_lz4, index as int).1;
    let z = lz4_compressed(packed);
    let zipped = use_lz4 && z.len() < packed.len();
    assert(stored == if zipped { z } else { packed });
    assert(column_restores(values, use_lz4, index as int));
    lemma_quotients(res);
    lemma_packed_len(res, 0, base, scale);
    assert(packed.subrange(0, packed.len() as int) =~= packed);
    lemma_unpack_groups(packed, 0, res, 0, base, scale, Seq::empty());
    assert(Seq::<i64>::empty() + res.subrange(0, res.len() as int) =~= res);
    assert(res == residuals_of(values[column], refs, p, origin, step)) by {
        reveal(column_choice);
    }
    lemma_predictor_inverse(values[column], refs, p, origin, step);
}

/// The `index`-th entry of an encoded block decodes to the column it was made from.
#[verifier::rlimit(30)]
proof fn lemma_column_step(block: Seq<u8>, values: Seq<Seq<i64>>, use_lz4: bool, index: nat, decoded: Seq<Seq<i64>>,
    seen: Seq<bool>)
    requires
        1 <= values.len() <= 64,
        !rows_invalid(values),
        columns_restore(values, use_lz4),
        laid_out(block, values, use_lz4),
        index < values.len(),
        decoded_so_far(values, decoded, seen, index),
    ensures
        adaptive_column(block, index, values.len(), values[0].len(), 16 + 44 * values.len() + plan_payload(values,
            use_lz4, index).len() as int, decoded, seen) == Ok::<(nat, Seq<i64>, nat), crate::error::FormatError>(
            (order_at(values.len(), index as int) as nat, values[order_at(values.len(), index as int)], column_plan(
            values, use_lz4, index as int).1.len())),
{
    let cols = values.len();
    lemma_choice_facts(values, index);
    let (column, p, reference, origin, step, base, scale, packed) = column_choice(values, index as int);
    let refs = if p == Predictor::Reference { values[reference as int] } else { Seq::<i64>::empty() };
    lemma_column_entry(block, values, use_lz4, index);
    lemma_column_stored(block, values, use_lz4, index);
    lemma_column_values(values, use_lz4, index, refs);
    assert(predictor_of_id(predictor_id(p)) == Some(p));
    assert(!seen[column]);
    if p == Predictor::Reference {
        assert(seen[reference as int]);
        assert(decoded[reference as int] == values[reference as int]);
    }
    assert((column as u8) as nat == column);
}

/// The entries from `index` on decode to the columns they were made from.
#[verifier::rlimit(30)]
proof fn lemma_columns(block: Seq<u8>, values: Seq<Seq<i64>>, use_lz4: bool, index: nat, decoded: Seq<Seq<i64>>,
    seen: Seq<bool>)
    requires
        1 <= values.len() <= 64,
        !rows_invalid(values),
        columns_restore(values, use_lz4),
        laid_out(block, values, use_lz4),
        index <= values.len(),
        decoded_so_far(values, decoded, seen, index),
    ensures
        adaptive_columns(block, index, values.len(), values[0].len(), 16 + 44 * values.len() + plan_payload(values,
            use_lz4, index).len() as int, decoded, seen) == Ok::<(Seq<Seq<i64>>, int), crate::error::FormatError>(
            (values, 16 + 44 * values.len() + plan_payload(values, use_lz4, values.len()).len() as int)),
    decreases values.len() - index,
{
    let cols = values.len();
    if index == cols {
        assert forall|c: int| 0 <= c < cols implies #[trigger] decoded[c] == values[c] by {
            assert(seen[c]);
        }
        assert(decoded =~= values);
    } else {
        let rows = values[0].len();
        let pos = 16 + 44 * cols + plan_payload(values, use_lz4, index).len() as int;
        lemma_column_step(block, values, use_lz4, index, decoded, seen);
        let column = order_at(cols, index as int);
        let stored = column_plan(values, use_lz4, index as int).1;
        let decoded2 = decoded.update(column, values[column]);
        let seen2 = seen.update(column, true);
        assert(decoded_so_far(values, decoded2, seen2, index + 1)) by {
            assert forall|c: int| 0 <= c < cols implies (#[trigger] seen2[c] == (order_at(cols, c) < index + 1)) by {
                if c != column {
                    assert(order_at(cols, order_at(cols, c)) == c);
                }
            }
        }
        assert(plan_payload(values, use_lz4, index + 1) == plan_payload(values, use_lz4, index) + stored);
        lemma_columns(block, values, use_lz4, index + 1, decoded2, seen2);
        assert(adaptive_columns(block, index, cols, rows, pos, decoded, seen) == adaptive_columns(block, index + 1,
            cols, rows, pos + stored.len(), decoded2, seen2));
    }
}

/// The header, checksum and layout of an encoded block.
#[verifier::rlimit(30)]
proof fn lemma_block_frame(values: Seq<Seq<i64>>, use_lz4: bool, kind: u8)
    requires
        adaptive_encoded(values, use_lz4, kind) is Ok,
    ensures
        ({
            let block = adaptive_encoded(values, use_lz4, kind).unwrap();
            &&& laid_out(block, values, use_lz4)
            &&& block.subrange(0, 8) == adaptive_magic()
            &&& block[9] == kind
            &&& crc32_of(block.subrange(0, block.len() - 4)) == u32_at(block, block.len() - 4)
            &&& u16_at(block, 10) == values.len()
            &&& u32_at(block, 12) == values[0].len()
        }),
{
    let cols = values.len();
    let rows = values[0].len();
    let h = adaptive_header(use_lz4, kind, cols as u16, rows as u32);
    let e = plan_entries(values, use_lz4, cols);
    let pl = plan_payload(values, use_lz4, cols);
    let body = h + e + pl;
    let block = body + le32(crc32_of(body));
    assert(adaptive_encoded(values, use_lz4, kind).unwrap() == block);
    assert(forall|v: u32| #[trigger] le32(v).len() == 4);
    assert(h.len() == 16);
    assert(block.subrange(0, 8) =~= adaptive_magic());
    assert(block.subrange(0, block.len() - 4) =~= body);
    assert(block.subrange(block.len() - 4, block.len() as int) =~= le32(crc32_of(body)));
    lemma_u32_at(block, block.len() - 4, crc32_of(body));
    assert(block[10] == h[10] && block[11] == h[11]);
    assert(u16_at(block, 10) == cols);
    assert(block.subrange(12, 16) =~= le32(rows as u32));
    lemma_u32_at(block, 12, rows as u32);
    assert(block.subrange(16, 16 + e.len() as int) =~= e);
    assert(block.subrange(16 + e.len() as int, 16 + e.len() + pl.len() as int) =~= pl);
}

/// An adaptive block decodes to the schema byte and the columns it was encoded from.
#[verifier::rlimit(60)]
pub proof fn lemma_adaptive_decoded(values: Seq<Seq<i64>>, use_lz4: bool, kind: u8)
    requires
        adaptive_encoded(values, use_lz4, kind) is Ok,
        adaptive_encoded(values, use_lz4, kind).unwrap().len() <= ADAPTIVE_MAX_BYTES,
        columns_restore(values, use_lz4),
    ensures
        adaptive_decoded(adaptive_encoded(values, use_lz4, kind).unwrap()) == Ok::<(u8, Seq<Seq<i64>>),
            crate::error::FormatError>((kind, values)),
{
    let cols = values.len();
    let rows = values[0].len();
    let block = adaptive_encoded(values, use_lz4, kind).unwrap();
    lemma_block_frame(values, use_lz4, kind);
    assert(plan_entries(values, use_lz4, cols).len() == 44 * cols) by {
        lemma_plan_entries(values, use_lz4, cols);
    }
    let decoded = Seq::new(cols, |i: int| Seq::<i64>::empty());
    let seen = Seq::new(cols, |i: int| false);
    assert(decoded_so_far(values, decoded, seen, 0)) by {
        assert forall|c: int| 0 <= c < cols implies (#[trigger] seen[c] == (order_at(cols, c) < 0)) by {}
    }
    assert(plan_payload(values, use_lz4, 0).len() == 0);
    lemma_columns(block, values, use_lz4, 0, decoded, seen);
    let end = 16 + 44 * cols + plan_payload(values, use_lz4, cols).len() as int;
    assert(block[8] <= 1);
    lemma_decoded_from(block, values, kind, decoded, seen);
}

/// What a block decodes to once each of its checks is known to pass.
proof fn lemma_decoded_from(block: Seq<u8>, values: Seq<Seq<i64>>, kind: u8, decoded: Seq<Seq<i64>>, seen: Seq<bool>)
    requires
        20 <= block.len() <= ADAPTIVE_MAX_BYTES,
        block.subrange(0, 8) == adaptive_magic(),
        block[8] <= 1,
        block[9] == kind,
        crc32_of(block.subrange(0, block.len() - 4)) == u32_at(block, block.len() - 4),
        u16_at(block, 10) == values.len(),
        u32_at(block, 12) == values[0].len(),
        1 <= values.len() <= 64,
        values[0].len() <= MAX_ROWS,
        16 + 44 * values.len() <= block.len() - 4,
        decoded == Seq::new(values.len(), |i: int| Seq::<i64>::empty()),
        seen == Seq::new(values.len(), |i: int| false),
        adaptive_columns(block, 0, values.len(), values[0].len(), 16 + 44 * values.len() as int, decoded, seen) == Ok::<
            (Seq<Seq<i64>>, int),
            crate::error::FormatError,
        >((values, block.len() - 4)),
    ensures
        adaptive_decoded(block) == Ok::<(u8, Seq<Seq<i64>>), crate::error::FormatError>((kind, values)),
{
}

/// An adaptive block of the fixed schema decodes to the kind and columns it was encoded
/// from, wherever its columns can be read back and it fits the decoder's size limit.
pub proof fn lemma_adaptive_roundtrip(kind: Kind, cols: Seq<Seq<i64>>, use_lz4: bool)
    requires
        adaptive_block(kind, cols, use_lz4) is Ok,
        adaptive_block(kind, cols, use_lz4).unwrap().len() <= ADAPTIVE_MAX_BYTES,
        columns_restore(cols, use_lz4),
    ensures
        adaptive_block_decoded(adaptive_block(kind, cols, use_lz4).unwrap()) == Ok::<(Kind, Seq<Seq<i64>>),
            crate::error::FormatError>((kind, cols)),
{
    lemma_adaptive_decoded(cols, use_lz4, kind_id(kind));
}

/// The header fields of an adaptive block: its magic, column count and row count.
pub(crate) proof fn lemma_adaptive_header_fields(values: Seq<Seq<i64>>, use_lz4: bool, kind: u8)
    requires
        adaptive_encoded(values, use_lz4, kind) is Ok,
    ensures
        adaptive_encoded(values, use_lz4, kind).unwrap().len() >= 20,
        adaptive_encoded(values, use_lz4, kind).unwrap().subrange(0, 8) == adaptive_magic(),
        u16_at(adaptive_encoded(values, use_lz4, kind).unwrap(), 10) == values.len(),
        u32_at(adaptive_encoded(values, use_lz4, kind).unwrap(), 12) == values[0].len(),
        1 <= values.len() <= 64,
{
    lemma_block_frame(values, use_lz4, kind);
}

} // verus!
