//! Little-endian integer fields inside byte buffers.
use vstd::prelude::*;

verus! {

/// The two little-endian bytes of `v`.
pub open spec fn le16(v: u16) -> Seq<u8> {
    seq![(v % 256) as u8, (v / 256) as u8]
}

/// The four little-endian bytes of `v`.
pub open spec fn le32(v: u32) -> Seq<u8> {
    seq![
        (v % 256) as u8,
        ((v / 0x100) % 256) as u8,
        ((v / 0x1_0000) % 256) as u8,
        (v / 0x100_0000) as u8,
    ]
}

/// The eight little-endian bytes of `v`.
pub open spec fn le64(v: u64) -> Seq<u8> {
    le32((v % 0x1_0000_0000) as u32) + le32((v / 0x1_0000_0000) as u32)
}

/// The little-endian `u16` at `pos`.
pub open spec fn u16_at(s: Seq<u8>, pos: int) -> u16 {
    (s[pos] + 256 * s[pos + 1]) as u16
}

/// The little-endian `u32` at `pos`.
pub open spec fn u32_at(s: Seq<u8>, pos: int) -> u32 {
    (s[pos] + 0x100 * s[pos + 1] + 0x1_0000 * s[pos + 2] + 0x100_0000 * s[pos + 3]) as u32
}

/// The little-endian `u64` at `pos`.
pub open spec fn u64_at(s: Seq<u8>, pos: int) -> u64 {
    (u32_at(s, pos) + 0x1_0000_0000 * u32_at(s, pos + 4)) as u64
}

/// Two little-endian bytes read back as the `u16` they were written from.
pub proof fn lemma_le16_roundtrip(v: u16)
    ensures
        le16(v).len() == 2,
        u16_at(le16(v), 0) == v,
        forall|s: Seq<u8>, p: int| 0 <= p && p + 2 <= s.len() && s.subrange(p, p + 2) == le16(v)
            ==> #[trigger] u16_at(s, p) == v,
{
    assert forall|s: Seq<u8>, p: int| 0 <= p && p + 2 <= s.len() && s.subrange(p, p + 2) == le16(v)
        implies #[trigger] u16_at(s, p) == v by {
        assert(s[p] == s.subrange(p, p + 2)[0]);
        assert(s[p + 1] == s.subrange(p, p + 2)[1]);
    }
}

/// Four little-endian bytes read back as the `u32` they were written from.
pub proof fn lemma_le32_roundtrip(v: u32)
    ensures
        le32(v).len() == 4,
        u32_at(le32(v), 0) == v,
        forall|s: Seq<u8>, p: int| 0 <= p && p + 4 <= s.len() && s.subrange(p, p + 4) == le32(v)
            ==> #[trigger] u32_at(s, p) == v,
{
    assert forall|s: Seq<u8>, p: int| 0 <= p && p + 4 <= s.len() && s.subrange(p, p + 4) == le32(v)
        implies #[trigger] u32_at(s, p) == v by {
        assert(s[p] == s.subrange(p, p + 4)[0]);
        assert(s[p + 1] == s.subrange(p, p + 4)[1]);
        assert(s[p + 2] == s.subrange(p, p + 4)[2]);
        assert(s[p + 3] == s.subrange(p, p + 4)[3]);
    }
}

/// Eight little-endian bytes read back as the `u64` they were written from.
pub proof fn lemma_le64_roundtrip(v: u64)
    ensures
        le64(v).len() == 8,
        u64_at(le64(v), 0) == v,
        forall|s: Seq<u8>, p: int| 0 <= p && p + 8 <= s.len() && s.subrange(p, p + 8) == le64(v)
            ==> #[trigger] u64_at(s, p) == v,
{
    let lo = (v % 0x1_0000_0000) as u32;
    let hi = (v / 0x1_0000_0000) as u32;
    lemma_le32_roundtrip(lo);
    lemma_le32_roundtrip(hi);
    assert forall|s: Seq<u8>, p: int| 0 <= p && p + 8 <= s.len() && s.subrange(p, p + 8) == le64(v)
        implies #[trigger] u64_at(s, p) == v by {
        assert(s.subrange(p, p + 4) =~= le64(v).subrange(0, 4));
        assert(le64(v).subrange(0, 4) =~= le32(lo));
        assert(s.subrange(p + 4, p + 8) =~= le64(v).subrange(4, 8));
        assert(le64(v).subrange(4, 8) =~= le32(hi));
    }
    assert(le64(v).subrange(0, 8) =~= le64(v));
}

/// The `u32` read at `p` is the one whose little-endian bytes stand there.
pub proof fn lemma_u32_at(s: Seq<u8>, p: int, v: u32)
    requires
        0 <= p,
        p + 4 <= s.len(),
        s.subrange(p, p + 4) == le32(v),
    ensures
        u32_at(s, p) == v,
{
    lemma_le32_roundtrip(v);
}

/// The `u64` read at `p` is the one whose little-endian bytes stand there.
pub proof fn lemma_u64_at(s: Seq<u8>, p: int, v: u64)
    requires
        0 <= p,
        p + 8 <= s.len(),
        s.subrange(p, p + 8) == le64(v),
    ensures
        u64_at(s, p) == v,
{
    lemma_le64_roundtrip(v);
}

pub fn read_u16(s: &[u8], pos: usize) -> (r: u16)
    requires
        pos + 2 <= s@.len(),
    ensures
        r == u16_at(s@, pos as int),
{
    let a = s[pos];
    let b = s[pos + 1];
    let r = (a as u16) | ((b as u16) << 8u16);
    assert(r == a + 256 * b) by (bit_vector)
        requires
            r == (a as u16) | ((b as u16) << 8u16),
    ;
    r
}

pub fn read_u32(s: &[u8], pos: usize) -> (r: u32)
    requires
        pos + 4 <= s@.len(),
    ensures
        r == u32_at(s@, pos as int),
{
    let a = s[pos];
    let b = s[pos + 1];
    let c = s[pos + 2];
    let d = s[pos + 3];
    let r = (a as u32) | ((b as u32) << 8u32) | ((c as u32) << 16u32) | ((d as u32) << 24u32);
    assert(r == a + 0x100 * b + 0x1_0000 * c + 0x100_0000 * d) by (bit_vector)
        requires
            r == (a as u32) | ((b as u32) << 8u32) | ((c as u32) << 16u32) | ((d as u32) << 24u32),
    ;
    r
}

pub fn read_u64(s: &[u8], pos: usize) -> (r: u64)
    requires
        pos + 8 <= s@.len(),
    ensures
        r == u64_at(s@, pos as int),
{
    let _n = s.len();
    let lo = read_u32(s, pos);
    let hi = read_u32(s, pos + 4);
    let r = (lo as u64) | ((hi as u64) << 32u64);
    assert(r == lo + 0x1_0000_0000 * hi) by (bit_vector)
        requires
            r == (lo as u64) | ((hi as u64) << 32u64),
    ;
    r
}

pub fn push_u16(out: &mut Vec<u8>, v: u16)
    ensures
        final(out)@ == old(out)@ + le16(v),
{
    let a = (v & 0xff) as u8;
    let b = (v >> 8u16) as u8;
    assert(a == v % 256 && b == v / 256) by (bit_vector)
        requires
            a == (v & 0xff) as u8,
            b == (v >> 8u16) as u8,
    ;
    out.push(a);
    out.push(b);
    assert(final(out)@ =~= old(out)@ + le16(v));
}

pub fn push_u32(out: &mut Vec<u8>, v: u32)
    ensures
        final(out)@ == old(out)@ + le32(v),
{
    let a = (v & 0xff) as u8;
    let b = ((v >> 8u32) & 0xff) as u8;
    let c = ((v >> 16u32) & 0xff) as u8;
    let d = (v >> 24u32) as u8;
    assert(a == v % 256 && b == (v / 0x100) % 256 && c == (v / 0x1_0000) % 256 && d == v
        / 0x100_0000) by (bit_vector)
        requires
            a == (v & 0xff) as u8,
            b == ((v >> 8u32) & 0xff) as u8,
            c == ((v >> 16u32) & 0xff) as u8,
            d == (v >> 24u32) as u8,
    ;
    out.push(a);
    out.push(b);
    out.push(c);
    out.push(d);
    assert(final(out)@ =~= old(out)@ + le32(v));
}

pub fn push_u64(out: &mut Vec<u8>, v: u64)
    ensures
        final(out)@ == old(out)@ + le64(v),
{
    let lo = (v & 0xffff_ffff) as u32;
    let hi = (v >> 32u64) as u32;
    assert(lo == v % 0x1_0000_0000 && hi == v / 0x1_0000_0000) by (bit_vector)
        requires
            lo == (v & 0xffff_ffff) as u32,
            hi == (v >> 32u64) as u32,
    ;
    push_u32(out, lo);
    push_u32(out, hi);
    assert(final(out)@ =~= old(out)@ + le64(v));
}

} // verus!
