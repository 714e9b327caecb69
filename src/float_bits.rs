//! IEEE-754 bit patterns of integers, computed with integer arithmetic: the
//! single-precision pattern of a lane number and the double-precision pattern
//! of a timestamp (rounded to nearest, ties to even).

use vstd::arithmetic::div_mod::{lemma_div_is_ordered, lemma_div_multiples_vanish, lemma_multiply_divide_lt};
use vstd::arithmetic::power2::{lemma2_to64, lemma2_to64_rest, lemma_pow2_adds, lemma_pow2_strictly_increases, lemma_pow2_unfold, pow2};
use vstd::prelude::*;

verus! {

/// The position of the highest set bit of `a` (0 for 0 and 1).
pub open spec fn log2(a: nat) -> nat
    decreases a,
{
    if a < 2 {
        0
    } else {
        1 + log2(a / 2)
    }
}

/// The single-precision pattern of `v`: sign 0, biased exponent
/// 127 + log2(v), and the bits of `v` below its top bit as the fraction.
/// Every `u16` is exact in single precision.
pub open spec fn f32_bits_of(v: u16) -> u32 {
    if v == 0 {
        0
    } else {
        let e = log2(v as nat);
        ((127 + e) * pow2(23) + (v - pow2(e)) * pow2((23 - e) as nat)) as u32
    }
}

/// The double-precision pattern of a magnitude `a > 0`, without the sign:
/// exact below 2^53, otherwise the 53 leading bits rounded to nearest with
/// ties to even (a carry out of the top bit raises the exponent).
pub open spec fn f64_magnitude_bits(a: nat) -> int {
    let e = log2(a);
    if e <= 52 {
        (1023 + e) * pow2(52) + (a - pow2(e)) * pow2((52 - e) as nat)
    } else {
        let s = (e - 52) as nat;
        let q = a / pow2(s);
        let r = a % pow2(s);
        let half = pow2((s - 1) as nat);
        let q2 = if r > half || (r == half && q % 2 == 1) {
            q + 1
        } else {
            q
        };
        if q2 == pow2(53) {
            ((1023 + e + 1) * pow2(52)) as int
        } else {
            (1023 + e) * pow2(52) + (q2 - pow2(52))
        }
    }
}

/// The double-precision pattern of the integer `t`, as converting it to a
/// double rounds it.
pub open spec fn f64_bits_of(t: i64) -> u64 {
    if t == 0 {
        0
    } else if t < 0 {
        (pow2(63) + f64_magnitude_bits((-t) as nat)) as u64
    } else {
        f64_magnitude_bits(t as nat) as u64
    }
}

proof fn lemma_log2_unique(a: nat, e: nat)
    requires
        pow2(e) <= a < 2 * pow2(e),
    ensures
        log2(a) == e,
    decreases e,
{
    if e == 0 {
        assert(pow2(0) == 1) by {
            lemma2_to64();
        }
    } else {
        lemma_pow2_unfold(e);
        lemma_log2_unique(a / 2, (e - 1) as nat);
    }
}

proof fn lemma_pow2_below(e: nat, k: nat)
    requires
        pow2(e) < pow2(k),
    ensures
        e < k,
{
    if e > k {
        lemma_pow2_strictly_increases(k, e);
    }
}

/// The top bit of `a > 0`: its position and its value.
fn top_bit(a: u64) -> (r: (u32, u64))
    requires
        a > 0,
    ensures
        r.0 < 64,
        r.1 == pow2(r.0 as nat),
        r.1 <= a < 2 * r.1,
        r.0 == log2(a as nat),
{
    let mut e: u32 = 0;
    let mut p: u64 = 1;
    proof {
        lemma2_to64();
        lemma2_to64_rest();
    }
    while p <= a / 2
        invariant
            p == pow2(e as nat),
            1 <= p <= a,
            pow2(64) == 0x1_0000_0000_0000_0000,
        decreases a - p,
    {
        proof {
            lemma_pow2_unfold((e + 1) as nat);
            if e >= 64 {
                lemma_pow2_strictly_increases(64, e as nat);
            }
        }
        p = p * 2;
        e = e + 1;
    }
    proof {
        if e >= 64 {
            if e > 64 {
                lemma_pow2_strictly_increases(64, e as nat);
            }
        }
        lemma_log2_unique(a as nat, e as nat);
    }
    (e, p)
}

/// `m * 2^(to - from)`, where `m < 2^from`.
fn scale(m: u64, from: u32, to: u32) -> (r: u64)
    requires
        m < pow2(from as nat),
        from <= to <= 63,
    ensures
        r == m * pow2((to - from) as nat),
        r < pow2(to as nat),
{
    let mut r: u64 = m;
    let mut i: u32 = from;
    proof {
        lemma2_to64();
        lemma2_to64_rest();
        assert(pow2(0) == 1);
        assert(((i - from) as nat) == 0);
        assert(m * pow2(0) == m);
    }
    while i < to
        invariant
            from <= i <= to <= 63,
            r == m * pow2((i - from) as nat),
            r < pow2(i as nat),
            pow2(63) == 0x8000_0000_0000_0000,
        decreases to - i,
    {
        proof {
            lemma_pow2_unfold((i + 1) as nat);
            lemma_pow2_unfold((i + 1 - from) as nat);
            if i + 1 < 63 {
                lemma_pow2_strictly_increases((i + 1) as nat, 63);
            }
            assert(m * pow2((i + 1 - from) as nat) == 2 * (m * pow2((i - from) as nat))) by (nonlinear_arith)
                requires
                    pow2((i + 1 - from) as nat) == 2 * pow2((i - from) as nat),
            ;
        }
        r = r * 2;
        i = i + 1;
    }
    r
}

/// `2^s` for `s < 64`.
fn pow2_u64(s: u32) -> (r: u64)
    requires
        s < 64,
    ensures
        r == pow2(s as nat),
{
    let mut r: u64 = 1;
    let mut i: u32 = 0;
    proof {
        lemma2_to64();
        lemma2_to64_rest();
    }
    while i < s
        invariant
            i <= s < 64,
            r == pow2(i as nat),
            pow2(63) == 0x8000_0000_0000_0000,
        decreases s - i,
    {
        proof {
            lemma_pow2_unfold((i + 1) as nat);
            if i + 1 < 63 {
                lemma_pow2_strictly_increases((i + 1) as nat, 63);
            }
        }
        r = r * 2;
        i = i + 1;
    }
    r
}

/// The single-precision bit pattern of a lane number.
pub fn f32_bits(v: u16) -> (r: u32)
    ensures
        r == f32_bits_of(v),
{
    if v == 0 {
        return 0;
    }
    let (e, p) = top_bit(v as u64);
    proof {
        lemma2_to64();
        lemma_pow2_below(e as nat, 16);
    }
    let f = scale(v as u64 - p, e, 23);
    proof {
        lemma_pow2_strictly_increases(23, 63);
    }
    (127 + e) * 8388608 + f as u32
}

/// The double-precision bit pattern of a timestamp.
pub fn f64_bits(t: i64) -> (r: u64)
    ensures
        r == f64_bits_of(t),
{
    if t == 0 {
        return 0;
    }
    let a: u64 = if t < 0 {
        (-(t as i128)) as u64
    } else {
        t as u64
    };
    let sign: u64 = if t < 0 {
        0x8000_0000_0000_0000
    } else {
        0
    };
    let (e, p) = top_bit(a);
    proof {
        lemma2_to64();
        lemma2_to64_rest();
    }
    let magnitude: u64;
    if e <= 52 {
        let f = scale(a - p, e, 52);
        magnitude = (1023 + e as u64) * 0x10_0000_0000_0000 + f;
    } else {
        let s = e - 52;
        let d = pow2_u64(s);
        proof {
            lemma_pow2_adds(52, s as nat);
            assert(pow2(e as nat) == pow2(52) * pow2(s as nat));
            lemma_pow2_unfold(s as nat);
            lemma_div_multiples_vanish(pow2(52) as int, d as int);
            lemma_div_is_ordered(p as int, a as int, d as int);
            assert(a < d * pow2(53)) by (nonlinear_arith)
                requires
                    a < 2 * p,
                    p == pow2(52) * d,
                    pow2(53) == 2 * pow2(52),
            ;
            lemma_multiply_divide_lt(a as int, d as int, pow2(53) as int);
        }
        let q = a / d;
        let r = a % d;
        let half = d / 2;
        let q2 = if r > half || (r == half && q % 2 == 1) {
            q + 1
        } else {
            q
        };
        if q2 == 0x20_0000_0000_0000 {
            magnitude = (1023 + e as u64 + 1) * 0x10_0000_0000_0000;
        } else {
            magnitude = (1023 + e as u64) * 0x10_0000_0000_0000 + (q2 - 0x10_0000_0000_0000);
        }
    }
    assert(magnitude == f64_magnitude_bits(a as nat));
    sign + magnitude
}

} // verus!
