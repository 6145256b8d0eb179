//! The 128-bit binary field GF(2^128) used by the constraint system.
//!
//! Elements are represented as `u128` bit patterns: bit `i` is the
//! coefficient of `x^i` in the polynomial representation. Addition is
//! carry-less (XOR); multiplication is polynomial multiplication modulo
//! the irreducible polynomial `x^128 + x^7 + x^2 + x + 1`.
//!
//! The tower-level of a value bounds how wide its bit pattern is: a value
//! at tower level `l` fits in `2^l` bits, so level 7 covers the whole
//! field. The field is realised monolithically over this one reduction
//! polynomial; tower levels are carried as width bookkeeping on values
//! and descriptors, not as a nested extension construction.
use vstd::prelude::*;

verus! {

/// The additive identity of the field.
pub const GF_ZERO: u128 = 0;

/// The multiplicative identity of the field.
pub const GF_ONE: u128 = 1;

/// Low bits of the reduction polynomial `x^128 + x^7 + x^2 + x + 1`.
pub const REDUCTION_POLY: u128 = 0x87;

/// The tower level of the full field: values are `2^7 = 128` bits wide.
pub const MAX_TOWER_LEVEL: usize = 7;

/// One doubling step in the field: multiply a polynomial by `x` and reduce.
pub open spec fn spec_xtime(a: u128) -> u128 {
    if a >> 127 == 1u128 {
        (a << 1) ^ 0x87u128
    } else {
        a << 1
    }
}

/// Partial products of `a * b` contributed by bits `i..128` of `b`, where
/// `a` has already been doubled `i` times.
pub open spec fn spec_mul_aux(a: u128, b: u128, i: nat) -> u128
    decreases 128 - i,
{
    if i >= 128 {
        0u128
    } else {
        (if (b >> i) & 1 == 1u128 {
            a
        } else {
            0u128
        }) ^ spec_mul_aux(spec_xtime(a), b, i + 1)
    }
}

/// Field multiplication: carry-less product reduced modulo the field polynomial.
pub open spec fn spec_mul(a: u128, b: u128) -> u128 {
    spec_mul_aux(a, b, 0)
}

/// Field exponentiation, defined by binary splitting of the exponent.
pub open spec fn spec_pow(a: u128, e: nat) -> u128
    decreases e,
{
    if e == 0 {
        1u128
    } else if e % 2 == 0 {
        let h = spec_pow(a, e / 2);
        spec_mul(h, h)
    } else {
        spec_mul(a, spec_pow(a, (e - 1) as nat))
    }
}

/// Field addition is carry-less: the XOR of the bit patterns.
pub fn gf_add(a: u128, b: u128) -> (r: u128)
    ensures
        r == a ^ b,
{
    a ^ b
}

/// Field multiplication by shift-and-add with interleaved reduction.
pub fn gf_mul(a: u128, b: u128) -> (r: u128)
    ensures
        r == spec_mul(a, b),
{
    let mut acc: u128 = 0;
    let mut aa: u128 = a;
    let mut i: usize = 0;
    proof {
        let m = spec_mul_aux(a, b, 0);
        assert(0u128 ^ m == m) by (bit_vector);
    }
    while i < 128
        invariant
            i <= 128,
            acc ^ spec_mul_aux(aa, b, i as nat) == spec_mul(a, b),
        decreases 128 - i,
    {
        let ghost acc0 = acc;
        let ghost aa0 = aa;
        if (b >> (i as u128)) & 1 == 1 {
            acc = acc ^ aa;
        }
        if aa >> 127 == 1 {
            aa = (aa << 1) ^ REDUCTION_POLY;
        } else {
            aa = aa << 1;
        }
        proof {
            assert(aa == spec_xtime(aa0));
            assert(spec_mul_aux(aa0, b, i as nat) == (if (b >> i as u128) & 1 == 1u128 {
                aa0
            } else {
                0u128
            }) ^ spec_mul_aux(spec_xtime(aa0), b, i as nat + 1));
            let t: u128 = if (b >> i as u128) & 1 == 1u128 {
                aa0
            } else {
                0u128
            };
            let rest: u128 = spec_mul_aux(aa, b, i as nat + 1);
            assert(acc == acc0 ^ t) by {
                assert(acc0 ^ 0u128 == acc0) by (bit_vector);
            }
            assert((acc0 ^ t) ^ rest == acc0 ^ (t ^ rest)) by (bit_vector);
        }
        i = i + 1;
    }
    proof {
        assert(spec_mul_aux(aa, b, 128) == 0u128);
        assert(acc ^ 0u128 == acc) by (bit_vector);
    }
    acc
}

/// Field exponentiation by squaring; the recursion depth is bounded by
/// the bit width of the exponent.
pub fn gf_pow(a: u128, e: u64) -> (r: u128)
    ensures
        r == spec_pow(a, e as nat),
    decreases e, e % 2,
{
    if e == 0 {
        GF_ONE
    } else if e % 2 == 0 {
        let h = gf_pow(a, e / 2);
        gf_mul(h, h)
    } else {
        let t = gf_pow(a, e - 1);
        gf_mul(a, t)
    }
}

} // verus!
