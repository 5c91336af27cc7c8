//! The wire format of the output buffers stores every value as the bit
//! pattern of an IEEE-754 single-precision float. All values the generator
//! emits are integers (coordinates, unit normals) or already bit patterns
//! (packed colors), so the only conversion needed is from a signed integer
//! to the bit pattern of the nearest single-precision float, rounding to
//! nearest with ties to even.

use vstd::arithmetic::div_mod::{
    lemma_div_is_ordered, lemma_div_multiples_vanish, lemma_fundamental_div_mod,
    lemma_multiply_divide_lt,
};
use vstd::arithmetic::power2::{
    lemma2_to64, lemma2_to64_rest, lemma_pow2_adds, lemma_pow2_pos, lemma_pow2_strictly_increases,
    pow2,
};
use vstd::prelude::*;

verus! {

/// The exponent of the highest power of two at most `n`.
pub open spec fn floor_log2(n: nat) -> nat
    decreases n,
{
    if n < 2 {
        0
    } else {
        1 + floor_log2(n / 2)
    }
}

/// `floor_log2` brackets its argument between two adjacent powers of two.
pub proof fn lemma_floor_log2(n: nat)
    requires
        n >= 1,
    ensures
        pow2(floor_log2(n)) <= n,
        n < pow2(floor_log2(n) + 1),
    decreases n,
{
    if n < 2 {
        lemma2_to64();
    } else {
        let m = n / 2;
        lemma_floor_log2(m);
        let f = floor_log2(m);
        lemma_fundamental_div_mod(n as int, 2);
        lemma_pow2_adds(1, f);
        lemma_pow2_adds(1, f + 1);
        lemma2_to64();
    }
}

/// A power of two below another is strictly smaller, so `floor_log2` of a
/// value below `pow2(k)` is below `k`.
pub proof fn lemma_floor_log2_bound(n: nat, k: nat)
    requires
        1 <= n,
        n < pow2(k),
    ensures
        floor_log2(n) < k,
{
    lemma_floor_log2(n);
    let f = floor_log2(n);
    if f >= k {
        if f > k {
            lemma_pow2_strictly_increases(k, f);
        }
        assert(pow2(k) <= pow2(f));
    }
}

/// The bit pattern of the nearest single-precision float to a positive
/// integer `n`, for `n < 2^32`: biased exponent and 23-bit mantissa, with
/// magnitudes past 24 bits rounded to nearest, ties to even.
pub open spec fn float_bits_mag(n: nat) -> u32 {
    let e = floor_log2(n);
    if e <= 23 {
        ((e + 127) * 0x800000 + (n * pow2((23 - e) as nat) - 0x800000)) as u32
    } else {
        let sh = (e - 23) as nat;
        let q = n / pow2(sh);
        let r = n % pow2(sh);
        let half = pow2((sh - 1) as nat);
        let q1 = if r > half || (r == half && q % 2 == 1) {
            q + 1
        } else {
            q
        };
        if q1 == 0x1000000 {
            ((e + 128) * 0x800000) as u32
        } else {
            ((e + 127) * 0x800000 + (q1 - 0x800000)) as u32
        }
    }
}

/// The bit pattern of the nearest single-precision float to a signed
/// integer of magnitude below `2^32`: zero maps to all-zero bits, negative
/// values set the sign bit of their magnitude's pattern.
pub open spec fn float_bits_of(v: int) -> u32 {
    if v == 0 {
        0
    } else if v > 0 {
        float_bits_mag(v as nat)
    } else {
        (0x80000000 + float_bits_mag((-v) as nat)) as u32
    }
}

/// The exponent of the highest power of two at most `n`.
fn floor_log2_u64(n: u64) -> (r: u32)
    requires
        n >= 1,
    ensures
        r as nat == floor_log2(n as nat),
        r < 64,
{
    proof {
        lemma2_to64();
        lemma_floor_log2_bound(n as nat, 64);
    }
    let mut m: u64 = n;
    let mut e: u32 = 0;
    while m >= 2
        invariant
            m >= 1,
            floor_log2(n as nat) == e + floor_log2(m as nat),
            floor_log2(n as nat) <= 63,
        decreases m,
    {
        m = m / 2;
        e = e + 1;
    }
    e
}

/// `pow2` as a 64-bit value.
fn pow2_u64(e: u32) -> (r: u64)
    requires
        e < 64,
    ensures
        r as nat == pow2(e as nat),
        r >= 1,
{
    proof {
        lemma2_to64();
    }
    let mut i: u32 = 0;
    let mut r: u64 = 1;
    while i < e
        invariant
            i <= e < 64,
            r as nat == pow2(i as nat),
        decreases e - i,
    {
        proof {
            lemma_pow2_adds(i as nat, 1);
            lemma2_to64();
            lemma2_to64_rest();
            lemma_pow2_strictly_increases(i as nat, 63);
        }
        r = r * 2;
        i = i + 1;
    }
    proof {
        lemma_pow2_pos(e as nat);
    }
    r
}

/// The bit pattern of the nearest single-precision float to `v`.
pub fn float_bits(v: i64) -> (r: u32)
    requires
        -0x80000000 <= v <= 0x80000000,
    ensures
        r == float_bits_of(v as int),
{
    if v == 0 {
        return 0;
    }
    let neg = v < 0;
    let n: u64 = if neg {
        (-v) as u64
    } else {
        v as u64
    };
    let e = floor_log2_u64(n);
    proof {
        lemma_floor_log2(n as nat);
        lemma2_to64();
        lemma_floor_log2_bound(n as nat, 32);
    }
    let mag: u32;
    if e <= 23 {
        let p = pow2_u64(23 - e);
        proof {
            lemma_pow2_adds(e as nat, (23 - e) as nat);
            lemma_pow2_adds((e + 1) as nat, (23 - e) as nat);
            lemma2_to64();
            if e < 23 {
                lemma_pow2_strictly_increases((e + 1) as nat, 24);
            }
            let pn = pow2((23 - e) as nat) as int;
            assert(n * pn >= pow2(e as nat) * pn) by (nonlinear_arith)
                requires
                    n >= pow2(e as nat),
                    pn >= 0,
            ;
            assert(n * pn < pow2((e + 1) as nat) * pn) by (nonlinear_arith)
                requires
                    n < pow2((e + 1) as nat),
                    pn >= 1,
            ;
        }
        let m = (n as u32) * (p as u32);
        mag = (e + 127) * 0x800000 + (m - 0x800000);
    } else {
        let sh = e - 23;
        let p = pow2_u64(sh);
        let q64 = n / p;
        let r64 = n % p;
        let half = p / 2;
        proof {
            let pn = pow2(sh as nat) as int;
            lemma_pow2_adds(23, sh as nat);
            lemma_pow2_adds(24, sh as nat);
            lemma2_to64();
            // q64 >= 2^23: n >= pow2(e) == pn * 0x800000
            lemma_div_is_ordered(pow2(e as nat) as int, n as int, pn);
            lemma_div_multiples_vanish(0x800000, pn);
            // q64 < 2^24: n < pow2(e + 1) == pn * 0x1000000
            lemma_multiply_divide_lt(n as int, pn, 0x1000000);
            // half == pow2(sh - 1)
            lemma_pow2_adds((sh - 1) as nat, 1);
            lemma_div_multiples_vanish(pow2((sh - 1) as nat) as int, 2);
        }
        let mut q = q64 as u32;
        if r64 > half || (r64 == half && q % 2 == 1) {
            q = q + 1;
        }
        if q == 0x1000000 {
            mag = (e + 128) * 0x800000;
        } else {
            mag = (e + 127) * 0x800000 + (q - 0x800000);
        }
    }
    if neg {
        0x80000000 + mag
    } else {
        mag
    }
}

} // verus!
