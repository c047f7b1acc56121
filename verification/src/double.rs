//! Dates travel as IEEE 754 doubles that count milliseconds; values hold
//! them as whole milliseconds. This module converts between the 64 bits of a
//! double and an unsigned count, by integer arithmetic on the bit pattern.

use vstd::prelude::*;
use vstd::arithmetic::power2::lemma2_to64;
use vstd::arithmetic::power2::lemma_pow2_pos;
use vstd::arithmetic::power2::lemma_pow2_unfold;
use vstd::arithmetic::power2::pow2;

verus! {

/// Two to the power 52: the weight of the hidden bit of a double.
pub const HIDDEN_BIT: u64 = 0x10_0000_0000_0000;

/// The exponent field of a double, biased by 1023.
pub open spec fn exponent_field(bits: u64) -> int {
    (bits / HIDDEN_BIT) as int % 0x800
}

/// The 52 fraction bits of a double.
pub open spec fn fraction_field(bits: u64) -> int {
    (bits % HIDDEN_BIT) as int
}

/// Whether the sign bit of a double is set.
pub open spec fn sign_bit(bits: u64) -> bool {
    bits >= 0x8000_0000_0000_0000
}

/// The whole number of milliseconds that a double stands for: its value
/// with the fraction cut off, zero for negative numbers and for NaN, and
/// the largest count for values that do not fit.
pub open spec fn spec_millis_of_double(bits: u64) -> u64 {
    let e = exponent_field(bits);
    let m = HIDDEN_BIT + fraction_field(bits);
    if sign_bit(bits) {
        0
    } else if e == 0x7FF {
        if fraction_field(bits) == 0 {
            u64::MAX
        } else {
            0
        }
    } else if e < 1023 {
        0
    } else if e >= 1087 {
        u64::MAX
    } else if e >= 1075 {
        (m * pow2((e - 1075) as nat)) as u64
    } else {
        (m / pow2((1075 - e) as nat) as int) as u64
    }
}

/// The position of the highest set bit of a positive number.
pub open spec fn top_bit(n: nat) -> nat
    decreases n,
{
    if n < 2 {
        0
    } else {
        1 + top_bit(n / 2)
    }
}

/// A count above 2^53 scaled down to 53 bits, rounded to the nearest
/// value, to the even one where two are equally near.
pub open spec fn rounded_significand(ms: u64, shift: nat) -> int {
    let unit = pow2(shift) as int;
    let q = ms as int / unit;
    let r = ms as int % unit;
    if 2 * r > unit || (2 * r == unit && q % 2 == 1) {
        q + 1
    } else {
        q
    }
}

/// The bits of the double nearest to a count of milliseconds, ties going
/// to the even significand.
pub open spec fn spec_double_of_millis(ms: u64) -> u64 {
    let p = top_bit(ms as nat);
    if ms == 0 {
        0
    } else if p <= 52 {
        ((1022 + p) * HIDDEN_BIT + ms * pow2((52 - p) as nat)) as u64
    } else {
        ((1022 + p) * HIDDEN_BIT + rounded_significand(ms, (p - 52) as nat)) as u64
    }
}

/// A positive number lies between the power of two of its highest bit and
/// the next one.
pub proof fn lemma_top_bit_bounds(n: nat)
    requires
        n > 0,
    ensures
        pow2(top_bit(n)) <= n < 2 * pow2(top_bit(n)),
    decreases n,
{
    lemma2_to64();
    if n >= 2 {
        lemma_top_bit_bounds(n / 2);
        lemma_pow2_unfold(top_bit(n));
    }
}

/// The highest bit of a 64-bit number is below 64.
pub proof fn lemma_top_bit_u64(n: u64)
    ensures
        top_bit(n as nat) <= 63,
{
    lemma2_to64();
    vstd::arithmetic::power2::lemma2_to64_rest();
    if n > 0 {
        lemma_top_bit_bounds(n as nat);
        if top_bit(n as nat) > 64 {
            vstd::arithmetic::power2::lemma_pow2_strictly_increases(64, top_bit(n as nat));
        }
    }
}

/// Two to the power `k`, for `k` up to 63.
fn power_of_two(k: u64) -> (p: u64)
    requires
        k <= 63,
    ensures
        p == pow2(k as nat),
        1 <= p <= 0x8000_0000_0000_0000,
{
    let mut p: u64 = 1;
    let mut i: u64 = 0;
    proof {
        lemma2_to64();
        vstd::arithmetic::power2::lemma2_to64_rest();
    }
    while i < k
        invariant
            i <= k <= 63,
            p == pow2(i as nat),
            pow2(63) == 0x8000_0000_0000_0000,
        decreases k - i,
    {
        proof {
            lemma_pow2_unfold((i + 1) as nat);
            if i + 1 < 63 {
                vstd::arithmetic::power2::lemma_pow2_strictly_increases((i + 1) as nat, 63);
            }
        }
        p = p * 2;
        i = i + 1;
    }
    proof {
        if k < 63 {
            vstd::arithmetic::power2::lemma_pow2_strictly_increases(k as nat, 63);
        }
        lemma_pow2_pos(k as nat);
    }
    p
}

/// The position of the highest set bit.
fn highest_bit(n: u64) -> (p: u64)
    requires
        n > 0,
    ensures
        p == top_bit(n as nat),
        p <= 63,
{
    let mut t: u64 = n;
    let mut p: u64 = 0;
    proof {
        lemma_top_bit_u64(n);
    }
    while t >= 2
        invariant
            t > 0,
            top_bit(n as nat) == p + top_bit(t as nat),
            top_bit(n as nat) <= 63,
        decreases t,
    {
        t = t / 2;
        p = p + 1;
    }
    p
}

/// The whole milliseconds of a double, given by its bits.
#[verifier::rlimit(50)]
pub fn millis_of_double(bits: u64) -> (ms: u64)
    ensures
        ms == spec_millis_of_double(bits),
{
    let e: u64 = (bits / HIDDEN_BIT) % 0x800;
    let f: u64 = bits % HIDDEN_BIT;
    if bits >= 0x8000_0000_0000_0000 {
        return 0;
    }
    if e == 0x7FF {
        return if f == 0 {
            u64::MAX
        } else {
            0
        };
    }
    if e < 1023 {
        return 0;
    }
    if e >= 1087 {
        return u64::MAX;
    }
    let m: u64 = HIDDEN_BIT + f;
    if e >= 1075 {
        let p: u64 = power_of_two(e - 1075);
        proof {
            lemma2_to64();
            if e - 1075 < 11 {
                vstd::arithmetic::power2::lemma_pow2_strictly_increases((e - 1075) as nat, 11);
            }
            assert(m * p <= u64::MAX) by (nonlinear_arith)
                requires
                    m < 0x20_0000_0000_0000,
                    p <= 2048,
            ;
        }
        m * p
    } else {
        let p: u64 = power_of_two(1075 - e);
        m / p
    }
}

/// The bits of the double nearest to a count of milliseconds.
#[verifier::rlimit(50)]
pub fn double_of_millis(ms: u64) -> (bits: u64)
    ensures
        bits == spec_double_of_millis(ms),
{
    if ms == 0 {
        return 0;
    }
    let p: u64 = highest_bit(ms);
    proof {
        lemma_top_bit_bounds(ms as nat);
        lemma2_to64();
        vstd::arithmetic::power2::lemma2_to64_rest();
    }
    if p <= 52 {
        let unit: u64 = power_of_two(52 - p);
        proof {
            vstd::arithmetic::power2::lemma_pow2_adds(p as nat, (52 - p) as nat);
            assert(ms * unit < 2 * HIDDEN_BIT) by (nonlinear_arith)
                requires
                    ms < 2 * pow2(p as nat),
                    unit == pow2((52 - p) as nat),
                    pow2(p as nat) * pow2((52 - p) as nat) == HIDDEN_BIT,
            ;
        }
        (1022 + p) * HIDDEN_BIT + ms * unit
    } else {
        let unit: u64 = power_of_two(p - 52);
        let q: u64 = ms / unit;
        let r: u64 = ms % unit;
        proof {
            vstd::arithmetic::power2::lemma_pow2_adds(52, (p - 52) as nat);
            assert(q < 2 * HIDDEN_BIT) by (nonlinear_arith)
                requires
                    q == ms / unit,
                    unit > 0,
                    ms < 2 * (HIDDEN_BIT * unit),
            ;
        }
        let half: u64 = unit / 2;
        proof {
            lemma_pow2_unfold((p - 52) as nat);
        }
        let up: bool = r > half || (r == half && q % 2 == 1);
        let q2: u64 = if up {
            q + 1
        } else {
            q
        };
        (1022 + p) * HIDDEN_BIT + q2
    }
}

/// The largest count of milliseconds up to which every count has a double
/// of its own: two to the power 53.
pub const EXACT_MAX: u64 = 0x20_0000_0000_0000;

/// A count of milliseconds of up to 2^53 is read back from the double
/// that stands for it.
#[verifier::rlimit(50)]
pub proof fn lemma_millis_round_trip(ms: u64)
    requires
        ms <= EXACT_MAX,
    ensures
        spec_millis_of_double(spec_double_of_millis(ms)) == ms,
{
    lemma2_to64();
    vstd::arithmetic::power2::lemma2_to64_rest();
    if ms > 0 {
        let p = top_bit(ms as nat);
        lemma_top_bit_bounds(ms as nat);
        if p > 53 {
            vstd::arithmetic::power2::lemma_pow2_strictly_increases(53, p);
        }
        if p <= 52 {
            let k = (52 - p) as nat;
            let unit = pow2(k) as int;
            lemma_pow2_pos(k);
            vstd::arithmetic::power2::lemma_pow2_adds(p, k);
            let m = ms as int * unit;
            assert(HIDDEN_BIT <= m < 2 * HIDDEN_BIT) by (nonlinear_arith)
                requires
                    m == ms as int * unit,
                    pow2(p) <= ms < 2 * pow2(p),
                    pow2(p) * unit == HIDDEN_BIT,
                    unit > 0,
            ;
            let bits = (1022 + p) * HIDDEN_BIT + m;
            assert(bits == (1023 + p) * HIDDEN_BIT + (m - HIDDEN_BIT)) by (nonlinear_arith)
                requires
                    bits == (1022 + p) * HIDDEN_BIT + m,
            ;
            assert(bits < 0x8000_0000_0000_0000) by (nonlinear_arith)
                requires
                    bits == (1023 + p) * HIDDEN_BIT + (m - HIDDEN_BIT),
                    m < 2 * HIDDEN_BIT,
                    p <= 52,
            ;
            vstd::arithmetic::div_mod::lemma_fundamental_div_mod_converse(
                bits,
                HIDDEN_BIT as int,
                (1023 + p) as int,
                m - HIDDEN_BIT,
            );
            let stored = bits as u64;
            assert(exponent_field(stored) == 1023 + p);
            assert(fraction_field(stored) == m - HIDDEN_BIT);
            if p == 52 {
                assert(unit == 1);
                assert(m == ms) by (nonlinear_arith)
                    requires
                        m == ms as int * unit,
                        unit == 1,
                ;
            } else {
                vstd::arithmetic::div_mod::lemma_div_by_multiple(ms as int, unit);
            }
        } else {
            assert(ms == EXACT_MAX);
            assert(pow2(1) == 2);
            assert(rounded_significand(ms, 1) == HIDDEN_BIT);
            let bits = 1076 * HIDDEN_BIT;
            vstd::arithmetic::div_mod::lemma_fundamental_div_mod_converse(
                bits,
                HIDDEN_BIT as int,
                1076,
                0,
            );
            let stored = bits as u64;
            assert(exponent_field(stored) == 1076);
            assert(fraction_field(stored) == 0);
        }
    }
}

} // verus!
