//! IEEE-754 binary64 facts that the SQL layer needs, on bit patterns: the
//! double nearest to an integer, and equality of doubles.

use vstd::prelude::*;
use vstd::arithmetic::power2::{pow2, lemma_pow2_unfold, lemma_pow2_adds,
    lemma_pow2_strictly_increases, lemma2_to64, lemma2_to64_rest};
use vstd::arithmetic::div_mod::lemma_fundamental_div_mod_converse;

verus! {

/// 2^52, the weight of the lowest exponent bit.
pub const FRACTION_UNIT: u64 = 0x10_0000_0000_0000;
/// 2^63, the sign bit.
pub const SIGN_BIT: u64 = 0x8000_0000_0000_0000;

/// floor(log2(m)) for m >= 1.
pub open spec fn msb(m: nat) -> nat
    decreases m,
{
    if m <= 1 { 0 } else { 1 + msb(m / 2) }
}

/// m / 2^s rounded to the nearest integer, ties to even.
pub open spec fn round_shift(m: nat, s: nat) -> nat {
    let q = m / pow2(s);
    let r = m % pow2(s);
    if s == 0 {
        q
    } else {
        let h = pow2((s - 1) as nat);
        if r > h || (r == h && q % 2 == 1) { q + 1 } else { q }
    }
}

/// The bits of a double with the given sign, biased exponent and fraction.
pub open spec fn encode_double(neg: bool, exp: int, frac: int) -> int {
    (if neg { SIGN_BIT as int } else { 0 }) + exp * FRACTION_UNIT + frac
}

/// The bits of the double nearest to `v`, ties to even: what `v as f64`
/// gives for an `i64`.
pub open spec fn double_of_int(v: int) -> int {
    if v == 0 {
        0
    } else {
        let neg = v < 0;
        let m: nat = if v < 0 { (-v) as nat } else { v as nat };
        let p = msb(m);
        if p <= 52 {
            encode_double(neg, (p + 1023) as int, m * pow2((52 - p) as nat) - FRACTION_UNIT)
        } else {
            let q = round_shift(m, (p - 52) as nat);
            if q == 2 * FRACTION_UNIT {
                encode_double(neg, (p + 1024) as int, 0)
            } else {
                encode_double(neg, (p + 1023) as int, q - FRACTION_UNIT)
            }
        }
    }
}

/// Whether the bits are a NaN: all exponent bits set and a nonzero fraction.
pub open spec fn is_nan_bits(b: u64) -> bool {
    (b / FRACTION_UNIT) % 2048 == 2047 && b % FRACTION_UNIT != 0
}

/// `==` on two doubles: a NaN equals nothing, and the two zeros are equal.
pub open spec fn double_eq(a: u64, b: u64) -> bool {
    !is_nan_bits(a) && !is_nan_bits(b) && (a == b || (a % SIGN_BIT == 0 && b % SIGN_BIT == 0))
}

proof fn lemma_msb_bounds(m: nat)
    requires
        m >= 1,
    ensures
        pow2(msb(m)) <= m < pow2(msb(m) + 1),
    decreases m,
{
    if m > 1 {
        lemma_msb_bounds(m / 2);
        lemma_pow2_unfold(msb(m));
        lemma_pow2_unfold(msb(m) + 1);
    } else {
        lemma2_to64();
    }
}

/// The bits of `v as f64`.
pub fn int_to_double_bits(v: i64) -> (b: u64)
    ensures
        b == double_of_int(v as int),
{
    if v == 0 {
        return 0;
    }
    let neg = v < 0;
    let m: u64 = if v == i64::MIN { SIGN_BIT } else if neg { (-v) as u64 } else { v as u64 };
    let ghost mn: nat = m as nat;
    proof {
        lemma_msb_bounds(mn);
        lemma2_to64();
        lemma2_to64_rest();
        if msb(mn) >= 64 {
            if msb(mn) > 64 {
                lemma_pow2_strictly_increases(64, msb(mn));
            }
            assert(false);
        }
    }
    let mut x = m;
    let mut p: u64 = 0;
    while x > 1
        invariant
            1 <= x,
            msb(mn) == p + msb(x as nat),
            msb(mn) < 64,
        decreases x,
    {
        x = x / 2;
        p = p + 1;
    }
    assert(p == msb(mn));
    let sign: u64 = if neg { SIGN_BIT } else { 0 };
    if p <= 52 {
        let mut y = m;
        let mut k = p;
        proof {
            assert(pow2((k - p) as nat) == 1);
            assert(y == mn * pow2((k - p) as nat));
        }
        while k < 52
            invariant
                p <= k <= 52,
                p == msb(mn),
                pow2(k as nat) <= y < pow2((k + 1) as nat),
                y == mn * pow2((k - p) as nat),
                pow2(52) == FRACTION_UNIT,
                pow2(53) == 2 * FRACTION_UNIT,
            decreases 52 - k,
        {
            proof {
                lemma_pow2_unfold((k + 1) as nat);
                lemma_pow2_unfold((k + 2) as nat);
                lemma_pow2_unfold((k + 1 - p) as nat);
                if k + 1 < 53 {
                    lemma_pow2_strictly_increases((k + 1) as nat, 53);
                }
                let a = pow2((k - p) as nat);
                assert(mn * (2 * a) == 2 * (mn * a)) by (nonlinear_arith);
            }
            y = y * 2;
            k = k + 1;
        }
        assert(k == 52);
        sign + (p + 1023) * FRACTION_UNIT + (y - FRACTION_UNIT)
    } else {
        let s = p - 52;
        let mut q = m;
        let mut r: u64 = 0;
        let mut pw: u64 = 1;
        let mut k: u64 = 0;
        while k < s
            invariant
                k <= s,
                s == p - 52,
                p <= 63,
                pw == pow2(k as nat),
                mn == q * pw + r,
                r < pw,
                pow2(11) == 2048,
            decreases s - k,
        {
            proof {
                lemma_pow2_unfold((k + 1) as nat);
                if k < 11 {
                    lemma_pow2_strictly_increases(k as nat, 11);
                }
                let qq = q as int;
                let pp = pw as int;
                assert(qq * pp == (qq / 2) * (2 * pp) + (qq % 2) * pp) by (nonlinear_arith);
            }
            let ghost q0 = q as int;
            let ghost pw0 = pw as int;
            let ghost r0 = r as int;
            if q % 2 == 1 {
                r = r + pw;
            }
            q = q / 2;
            pw = pw * 2;
            k = k + 1;
            proof {
                assert(r0 + (q0 % 2) * pw0 == r as int) by (nonlinear_arith)
                    requires
                        q0 % 2 == 1 ==> r as int == r0 + pw0,
                        q0 % 2 == 0 ==> r as int == r0,
                        0 <= q0,
                ;
                assert((q as int) * (pw as int) == (q0 / 2) * (2 * pw0)) by (nonlinear_arith)
                    requires
                        q as int == q0 / 2,
                        pw as int == 2 * pw0,
                ;
            }
        }
        proof {
            lemma_fundamental_div_mod_converse(mn as int, pw as int, q as int, r as int);
            lemma_pow2_adds(52, s as nat);
            lemma_pow2_adds(53, s as nat);
            lemma_pow2_unfold(s as nat);
            let d = pw as int;
            let qq = q as int;
            let rr = r as int;
            let lo = pow2(52) as int;
            assert(lo * d <= qq * d + rr < 2 * lo * d ==> lo <= qq < 2 * lo) by (nonlinear_arith)
                requires
                    d > 0,
                    0 <= rr < d,
            ;
        }
        let h = pw / 2;
        let q2 = if r > h || (r == h && q % 2 == 1) { q + 1 } else { q };
        if q2 == 2 * FRACTION_UNIT {
            sign + (p + 1024) * FRACTION_UNIT
        } else {
            sign + (p + 1023) * FRACTION_UNIT + (q2 - FRACTION_UNIT)
        }
    }
}

/// `==` on two doubles given by their bits.
pub fn double_bits_eq(a: u64, b: u64) -> (r: bool)
    ensures
        r == double_eq(a, b),
{
    let a_nan = (a / FRACTION_UNIT) % 2048 == 2047 && a % FRACTION_UNIT != 0;
    let b_nan = (b / FRACTION_UNIT) % 2048 == 2047 && b % FRACTION_UNIT != 0;
    !a_nan && !b_nan && (a == b || (a % SIGN_BIT == 0 && b % SIGN_BIT == 0))
}

} // verus!
