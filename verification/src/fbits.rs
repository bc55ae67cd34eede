//! The IEEE-754 double-precision bit patterns of small integers.
//!
//! Columns store 64-bit floating-point payloads as their bit patterns, so
//! widening an 8-bit or 16-bit integer entry into a float entry means
//! computing the bit pattern of that integer's exact double representation.
//! Every integer in the 16-bit range is exactly representable, so the
//! conversion is pure integer arithmetic: sign bit, biased exponent and
//! mantissa assembled positionally.

use vstd::arithmetic::power2::{
    lemma2_to64, lemma2_to64_rest, lemma_pow2_adds, lemma_pow2_strictly_increases,
    lemma_pow2_unfold, pow2,
};
use vstd::prelude::*;

verus! {

/// The position of the most significant set bit of `m` (zero for `m <= 1`).
pub open spec fn msb(m: nat) -> nat
    decreases m,
{
    if m < 2 {
        0
    } else {
        1 + msb(m / 2)
    }
}

/// The most significant set bit brackets `m` between two powers of two.
pub proof fn lemma_msb_bounds(m: nat)
    requires
        m >= 1,
    ensures
        pow2(msb(m)) <= m < pow2(msb(m) + 1),
    decreases m,
{
    if m < 2 {
        lemma2_to64();
    } else {
        lemma_msb_bounds(m / 2);
        lemma_pow2_unfold(msb(m));
        lemma_pow2_unfold(msb(m) + 1);
        assert(pow2(msb(m)) == 2 * pow2(msb(m / 2)));
        assert(pow2(msb(m) + 1) == 2 * pow2(msb(m / 2) + 1));
        assert(2 * pow2(msb(m / 2)) <= 2 * (m / 2));
        assert(m < 2 * pow2(msb(m / 2) + 1));
    }
}

/// The IEEE-754 double bit pattern of the integer `v`, valid for any `v`
/// whose magnitude a double represents exactly; this library applies it
/// only within the 16-bit signed range.
pub open spec fn f64_bits_of(v: int) -> u64
    recommends
        -0x8000 <= v <= 0x7FFF,
{
    if v == 0 {
        0u64
    } else {
        let sign: nat = if v < 0 {
            pow2(63)
        } else {
            0
        };
        let m: nat = if v < 0 {
            (-v) as nat
        } else {
            v as nat
        };
        let k: nat = msb(m);
        (sign + (1023 + k) * pow2(52) + (m - pow2(k)) * pow2((52 - k) as nat)) as u64
    }
}

/// The bit pattern of the double that exactly represents `v`.
pub fn f64_bits_from_i16(v: i16) -> (r: u64)
    ensures
        r == f64_bits_of(v as int),
{
    if v == 0 {
        return 0;
    }
    let neg: bool = v < 0;
    let m: u32 = if neg {
        (-(v as i32)) as u32
    } else {
        v as u32
    };
    let ghost mn: nat = m as nat;
    proof {
        lemma2_to64();
    }
    let mut k: u32 = 0;
    let mut t: u32 = m;
    let mut pk: u64 = 1;
    while t >= 2
        invariant
            1 <= t <= m,
            1 <= m <= 0x8000,
            pk == pow2(k as nat),
            msb(mn) == k + msb(t as nat),
            mn == m,
            k <= 15,
            pk <= 0x8000,
        decreases t,
    {
        proof {
            lemma2_to64();
            lemma_msb_bounds(mn);
            assert(msb(t as nat) == 1 + msb((t / 2) as nat));
            if k + 1 > 15 {
                assert(msb(mn) >= 16);
                if msb(mn) > 15 {
                    lemma_pow2_strictly_increases(15, msb(mn));
                }
                assert(false);
            }
            if ((k + 1) as nat) < 15 {
                lemma_pow2_strictly_increases((k + 1) as nat, 15);
            }
            lemma_pow2_unfold((k + 1) as nat);
        }
        t = t / 2;
        k = k + 1;
        pk = pk * 2;
    }
    proof {
        assert(msb(t as nat) == 0);
        assert(msb(mn) == k as nat);
        lemma_msb_bounds(mn);
        lemma2_to64();
        lemma2_to64_rest();
    }
    let exp: u64 = (1023 + k as u64) * 0x10000000000000;
    let mut p52k: u64 = 1;
    let mut j: u32 = 0;
    while j < 52 - k
        invariant
            k <= 15,
            j <= 52 - k,
            p52k == pow2(j as nat),
            p52k <= 0x10000000000000,
        decreases 52 - k - j,
    {
        proof {
            lemma2_to64();
            lemma2_to64_rest();
            if ((j + 1) as nat) < 52 {
                lemma_pow2_strictly_increases((j + 1) as nat, 52);
            }
            lemma_pow2_unfold((j + 1) as nat);
        }
        p52k = p52k * 2;
        j = j + 1;
    }
    proof {
        lemma2_to64();
        lemma2_to64_rest();
        assert(p52k == pow2((52 - k) as nat));
        lemma_pow2_unfold((k + 1) as nat);
        assert(mn - pow2(k as nat) < pow2(k as nat));
        lemma_pow2_adds(k as nat, (52 - k) as nat);
        vstd::arithmetic::power2::lemma_pow2_pos((52 - k) as nat);
        assert(pow2(k as nat) * pow2((52 - k) as nat) == pow2(52));
        let a: int = mn - pow2(k as nat);
        let b: int = pow2(k as nat) as int;
        let c: int = pow2((52 - k) as nat) as int;
        assert(a * c < b * c) by (nonlinear_arith)
            requires
                0 <= a < b,
                c > 0,
        ;
        assert((mn - pow2(k as nat)) * pow2((52 - k) as nat) < pow2(52));
    }
    let mant: u64 = (m as u64 - pk) * p52k;
    let sign: u64 = if neg {
        0x8000000000000000
    } else {
        0
    };
    sign + exp + mant
}

/// The bit pattern of the double that exactly represents `v`.
pub fn f64_bits_from_i8(v: i8) -> (r: u64)
    ensures
        r == f64_bits_of(v as int),
{
    f64_bits_from_i16(v as i16)
}

} // verus!
