//! Numbers built from bits, least significant first, and the bits read back from them.
use vstd::arithmetic::div_mod::{lemma_fundamental_div_mod_converse, lemma_mod_breakdown};
use vstd::arithmetic::power2::{lemma_pow2_adds, lemma_pow2_pos, lemma_pow2_unfold, pow2};
use vstd::prelude::*;

verus! {

/// The number whose bit `k` is `b(start + k)`, for `k` below `n`.
pub open spec fn bitsum(b: spec_fn(int) -> nat, start: int, n: nat) -> nat
    decreases n,
{
    if n == 0 {
        0
    } else {
        bitsum(b, start, (n - 1) as nat) + b(start + n - 1) * pow2((n - 1) as nat)
    }
}

/// Every bit that `b` gives from `start` on, for `n` bits, is zero or one.
pub open spec fn all_bits(b: spec_fn(int) -> nat, start: int, n: nat) -> bool {
    forall|k: int| 0 <= k < n ==> #[trigger] b(start + k) <= 1
}

/// `n` bits sum to less than 2^`n`.
pub proof fn lemma_bitsum_bound(b: spec_fn(int) -> nat, start: int, n: nat)
    requires
        all_bits(b, start, n),
    ensures
        bitsum(b, start, n) < pow2(n),
    decreases n,
{
    if n == 0 {
        vstd::arithmetic::power2::lemma2_to64();
    } else {
        lemma_bitsum_bound(b, start, (n - 1) as nat);
        lemma_pow2_unfold(n);
        let top = b(start + (n - 1));
        assert(top <= 1);
        assert(bitsum(b, start, n) < pow2(n)) by (nonlinear_arith)
            requires
                bitsum(b, start, n) == bitsum(b, start, (n - 1) as nat) + top * pow2((n - 1) as nat),
                bitsum(b, start, (n - 1) as nat) < pow2((n - 1) as nat),
                top <= 1,
                pow2(n) == 2 * pow2((n - 1) as nat),
        ;
    }
}

/// The low `m` bits and the rest: bitsum over n bits is bitsum over m plus 2^m times the rest.
pub proof fn lemma_bitsum_split(b: spec_fn(int) -> nat, start: int, m: nat, n: nat)
    requires
        m <= n,
    ensures
        bitsum(b, start, n) == bitsum(b, start, m) + pow2(m) * bitsum(b, start + m, (n - m) as nat),
    decreases n,
{
    if n == m {
        assert(bitsum(b, start + m, 0) == 0);
    } else {
        lemma_bitsum_split(b, start, m, (n - 1) as nat);
        lemma_pow2_adds(m, (n - 1 - m) as nat);
        let rest = bitsum(b, start + m, (n - 1 - m) as nat);
        let top = b(start + n - 1);
        assert(bitsum(b, start + m, (n - m) as nat) == rest + b(start + m + (n - m) - 1) * pow2((n - m - 1) as nat));
        assert(start + m + (n - m) - 1 == start + n - 1);
        assert(pow2(m) * (rest + top * pow2((n - m - 1) as nat)) == pow2(m) * rest + top * (pow2(m) * pow2((n - m - 1) as nat))) by (nonlinear_arith);
    }
}

/// Bit `i` read back from a bitsum is the bit that went in.
pub proof fn lemma_bitsum_digit(b: spec_fn(int) -> nat, start: int, n: nat, i: nat)
    requires
        i < n,
        all_bits(b, start, n),
    ensures
        (bitsum(b, start, n) / pow2(i)) % 2 == b(start + i),
{
    lemma_bitsum_split(b, start, i, n);
    lemma_bitsum_split(b, start + i, 1, (n - i) as nat);
    assert forall|k: int| 0 <= k < i implies #[trigger] b(start + k) <= 1 by {
        assert(b(start + k) <= 1);
    }
    assert(all_bits(b, start, i));
    lemma_bitsum_bound(b, start, i);
    let low = bitsum(b, start, i);
    let high = bitsum(b, start + i, (n - i) as nat);
    let rest = bitsum(b, start + i + 1, (n - i - 1) as nat);
    vstd::arithmetic::power2::lemma2_to64();
    assert(bitsum(b, start + i, 1) == b(start + i)) by {
        assert(bitsum(b, start + i, 0) == 0);
        assert(bitsum(b, start + i, 1) == bitsum(b, start + i, 0) + b(start + i + 1 - 1) * pow2(0));
        assert(start + i + 1 - 1 == start + i);
        assert(pow2(0) == 1);
    }
    assert(b(start + i) <= 1) by {
        assert(b(start + (i as int)) <= 1);
    }
    lemma_pow2_pos(i);
    assert(bitsum(b, start, n) == high * pow2(i) + low) by (nonlinear_arith)
        requires
            bitsum(b, start, n) == low + pow2(i) * high,
    ;
    lemma_fundamental_div_mod_converse(bitsum(b, start, n) as int, pow2(i) as int, high as int, low as int);
    assert(high == rest * 2 + b(start + i)) by (nonlinear_arith)
        requires
            high == b(start + i) + pow2(1) * rest,
            pow2(1) == 2,
    ;
    lemma_fundamental_div_mod_converse(high as int, 2, rest as int, b(start + i) as int);
}

/// Two bit sources that agree on every bit give the same bitsum.
pub proof fn lemma_bitsum_ext(b1: spec_fn(int) -> nat, s1: int, b2: spec_fn(int) -> nat, s2: int, n: nat)
    requires
        forall|k: int| 0 <= k < n ==> #[trigger] b1(s1 + k) == b2(s2 + k),
    ensures
        bitsum(b1, s1, n) == bitsum(b2, s2, n),
    decreases n,
{
    if n > 0 {
        lemma_bitsum_ext(b1, s1, b2, s2, (n - 1) as nat);
        assert(b1(s1 + (n - 1)) == b2(s2 + (n - 1)));
    }
}

/// The bits of `x` itself, for `n` bits, sum to `x` modulo 2^n.
pub proof fn lemma_bitsum_of_bits(x: nat, n: nat)
    ensures
        bitsum(|k: int| (x / pow2(k as nat)) % 2, 0, n) == x % pow2(n),
    decreases n,
{
    let b = |k: int| (x / pow2(k as nat)) % 2;
    vstd::arithmetic::power2::lemma2_to64();
    if n == 0 {
        assert(x % 1 == 0);
    } else {
        lemma_bitsum_of_bits(x, (n - 1) as nat);
        lemma_pow2_unfold(n);
        lemma_pow2_pos((n - 1) as nat);
        lemma_mod_breakdown(x as int, pow2((n - 1) as nat) as int, 2);
        assert(pow2((n - 1) as nat) * 2 == pow2(n));
        assert(b(0 + n - 1) == (x / pow2((n - 1) as nat)) % 2);
        let top = (x / pow2((n - 1) as nat)) % 2;
        assert(pow2((n - 1) as nat) * top == top * pow2((n - 1) as nat)) by (nonlinear_arith);
    }
}

} // verus!
