//! Why a column's values come back from their base, scale and quotients.
use crate::adaptive::{gcd_of, offset_of, offset_summary, quotients_of, scale_and_max};
use crate::index::lemma_min_max;
use vstd::prelude::*;
use vstd::wrapping::{i64_specs, u64_specs};

verus! {

/// `d` divides `x`: zero divides only zero.
pub open spec fn divides(d: nat, x: nat) -> bool {
    if d == 0 {
        x == 0
    } else {
        x % d == 0
    }
}

/// Euclid's common divisor divides both numbers and is at most the larger.
pub proof fn lemma_gcd_divides(a: nat, b: nat)
    ensures
        divides(gcd_of(a, b), a),
        divides(gcd_of(a, b), b),
        gcd_of(a, b) <= if a > b { a } else { b },
    decreases b,
{
    if b > 0 {
        lemma_gcd_divides(b, a % b);
        let g = gcd_of(b, a % b);
        vstd::arithmetic::div_mod::lemma_fundamental_div_mod(a as int, b as int);
        if g > 0 {
            assert(a % g == 0) by {
                let q = a / b;
                let r = a % b;
                assert(a == b * q + r);
                vstd::arithmetic::div_mod::lemma_mod_multiples_vanish(q as int, r as int, g as int);
                assert(b == g * (b / g)) by {
                    vstd::arithmetic::div_mod::lemma_fundamental_div_mod(b as int, g as int);
                }
                assert(b * q == g * ((b / g) * q)) by (nonlinear_arith)
                    requires
                        b == g * (b / g),
                ;
                vstd::arithmetic::div_mod::lemma_mod_multiples_vanish(((b / g) * q) as int, r as int, g as int);
            }
        } else {
            assert(a % b == 0);
            assert(b == 0) by {
                assert(divides(g, b));
            }
        }
        assert(a % b < b) by {
            vstd::arithmetic::div_mod::lemma_mod_bound(a as int, b as int);
        }
        if g > 0 {
            vstd::arithmetic::div_mod::lemma_mod_pos_bound(b as int, g as int);
            if b > 0 {
                assert(g <= b) by {
                    if g > b {
                        vstd::arithmetic::div_mod::lemma_small_mod(b, g);
                    }
                }
            }
        }
    }
}

/// Divisibility is transitive: a positive divisor of a divisor of `x` divides `x`.
pub proof fn lemma_divides_trans(d: nat, e: nat, x: nat)
    requires
        divides(d, e),
        divides(e, x),
        d > 0,
    ensures
        divides(d, x),
{
    if e == 0 {
        assert(x == 0);
    } else {
        assert(e == d * (e / d)) by {
            vstd::arithmetic::div_mod::lemma_fundamental_div_mod(e as int, d as int);
        }
        assert(x == e * (x / e)) by {
            vstd::arithmetic::div_mod::lemma_fundamental_div_mod(x as int, e as int);
        }
        assert(x == d * ((e / d) * (x / e))) by (nonlinear_arith)
            requires
                e == d * (e / d),
                x == e * (x / e),
        ;
        let k: int = ((e / d) * (x / e)) as int;
        vstd::arithmetic::div_mod::lemma_mod_multiples_basic(k, d as int);
        assert(x as int == k * (d as int)) by (nonlinear_arith)
            requires
                x == d * ((e / d) * (x / e)),
                k == (e / d) * (x / e),
        ;
    }
}

/// The running divisor divides every offset so far, and the running maximum bounds them.
pub proof fn lemma_scale_and_max(values: Seq<i64>, base: i64, n: nat)
    requires
        n <= values.len(),
    ensures
        forall|i: int| 0 <= i < n ==> divides(scale_and_max(values, base, n).0 as nat, #[trigger] offset_of(values[i], base) as nat),
        forall|i: int| 0 <= i < n ==> #[trigger] offset_of(values[i], base) <= scale_and_max(values, base, n).1,
    decreases n,
{
    if n > 0 {
        let m = (n - 1) as nat;
        lemma_scale_and_max(values, base, m);
        let (s, mx) = scale_and_max(values, base, m);
        let off = offset_of(values[m as int], base);
        let s2 = scale_and_max(values, base, n).0;
        if s != 1 {
            lemma_gcd_divides(s as nat, off as nat);
            let g = gcd_of(s as nat, off as nat);
            assert(s2 as nat == g);
            assert forall|i: int| 0 <= i < n implies divides(s2 as nat, #[trigger] offset_of(values[i], base) as nat) by {
                if i < m {
                    let o = offset_of(values[i], base) as nat;
                    if g > 0 {
                        lemma_divides_trans(g, s as nat, o);
                    } else {
                        assert(s == 0);
                    }
                }
            }
        } else {
            assert forall|i: int| 0 <= i < n implies divides(s2 as nat, #[trigger] offset_of(values[i], base) as nat) by {
                assert(s2 == 1);
                vstd::arithmetic::div_mod::lemma_mod_self_0(1);
                assert((offset_of(values[i], base) as nat) % 1 == 0);
            }
        }
    }
}

/// Each value is its quotient times the scale, plus the base, wrapping; each quotient is at
/// most the largest offset divided by the scale.
pub proof fn lemma_quotients(values: Seq<i64>)
    ensures
        ({
            let (base, scale, max) = offset_summary(values);
            let q = quotients_of(values, base, scale);
            &&& scale >= 1
            &&& q.len() == values.len()
            &&& forall|i: int| 0 <= i < values.len() ==> #[trigger] q[i] <= max / scale
            &&& forall|i: int| 0 <= i < values.len() ==> u64_specs::wrapping_add(u64_specs::wrapping_mul(#[trigger] q[i], scale),
                base as u64) as i64 == values[i]
        }),
{
    let (base, scale, max) = offset_summary(values);
    let (s, mx) = scale_and_max(values, base, values.len());
    let q = quotients_of(values, base, scale);
    lemma_scale_and_max(values, base, values.len());
    if values.len() > 0 {
        lemma_min_max(values);
    }
    assert forall|i: int| 0 <= i < values.len() implies #[trigger] q[i] <= max / scale && u64_specs::wrapping_add(
        u64_specs::wrapping_mul(q[i], scale), base as u64) as i64 == values[i] by {
        let v = values[i];
        let off = offset_of(v, base);
        assert(base <= v);
        let d = i64_specs::wrapping_sub(v, base);
        assert((d as u64) as int == v - base && u64_specs::wrapping_add(d as u64, base as u64) as i64 == v) by (bit_vector)
            requires
                base <= v,
                d == (if v - base > 0x7fff_ffff_ffff_ffff { (v - base - 0x1_0000_0000_0000_0000) as i64 } else { (v - base) as i64 }),
        ;
        assert(divides(s as nat, off as nat));
        assert(off % scale == 0) by {
            if s == 0 {
                assert(off == 0);
                assert(scale == 1);
            } else {
                assert(scale == s);
            }
        }
        let qi = q[i];
        assert(qi == off / scale) by {
            if scale == 1 {
                vstd::arithmetic::div_mod::lemma_div_basics(off as int);
            }
        }
        vstd::arithmetic::div_mod::lemma_fundamental_div_mod(off as int, scale as int);
        assert(qi * scale == off) by (nonlinear_arith)
            requires
                off == scale * (off / scale) + off % scale,
                off % scale == 0,
                qi == off / scale,
        ;
        assert(u64_specs::wrapping_mul(qi, scale) == off) by {
            vstd::arithmetic::div_mod::lemma_small_mod(off as nat, 0x1_0000_0000_0000_0000nat);
        }
        vstd::arithmetic::div_mod::lemma_div_is_ordered(off as int, max as int, scale as int);
    }
}

} // verus!
