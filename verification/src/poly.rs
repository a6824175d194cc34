//! Specification-level model of polynomials over GF(2).
//!
//! A polynomial with coefficients in GF(2) is held in the bits of a `u32`:
//! bit `i` is the coefficient of `x^i`. Addition is `^`, `pmul` is the
//! carryless product, `pdeg` the degree (`-1` for the zero polynomial), and
//! `pmod`/`pquot` are the remainder and quotient of polynomial long
//! division. `gf_mul` is multiplication in GF(2^8) with the fixed modulus
//! `x^8 + x^5 + x^3 + x + 1`, i.e. `0x12B`.

use vstd::prelude::*;
use vstd::arithmetic::power2::{
    pow2,
    lemma_pow2_adds,
    lemma_pow2_pos,
    lemma_pow2_strictly_increases,
    lemma2_to64,
    lemma2_to64_rest,
};
use vstd::bits::{lemma_u64_shl_is_mul, lemma_u32_shl_is_mul};

verus! {

/// The reduction modulus of the field: x^8 + x^5 + x^3 + x + 1.
pub const MODULUS: u16 = 0x12B;

/// Carryless product: multiplication of GF(2) polynomials, without
/// reduction. Bits above position 31 are lost; callers keep degrees small
/// enough that nothing is lost.
pub open spec fn pmul(a: u32, b: u32) -> u32
    decreases a,
{
    if a == 0 {
        0u32
    } else {
        (if a % 2 == 1 {
            b
        } else {
            0u32
        }) ^ (pmul(a / 2, b) << 1u32)
    }
}

/// Degree of the polynomial: the index of its highest set bit, or -1 for
/// the zero polynomial.
pub open spec fn pdeg(a: u32) -> int
    decreases a,
{
    if a == 0 {
        -1
    } else {
        1 + pdeg(a / 2)
    }
}

/// Remainder of polynomial long division: while the dividend's degree
/// reaches the divisor's, align the divisor under the dividend's leading
/// term and subtract (xor) it away.
pub open spec fn pmod(a: u32, m: u32) -> u32
    decreases a,
        via pmod_decreases
{
    if m == 0 {
        a
    } else if pdeg(a) < pdeg(m) {
        a
    } else {
        pmod(a ^ (m << ((pdeg(a) - pdeg(m)) as u32)), m)
    }
}

/// Quotient of polynomial long division, built from the same recursion as
/// `pmod`: each step contributes the monomial that aligns the divisor's
/// leading term with the dividend's.
pub open spec fn pquot(a: u32, m: u32) -> u32
    decreases a,
        via pquot_decreases
{
    if m == 0 {
        0u32
    } else if pdeg(a) < pdeg(m) {
        0u32
    } else {
        pquot(a ^ (m << ((pdeg(a) - pdeg(m)) as u32)), m) ^ (1u32 << ((pdeg(a) - pdeg(m)) as u32))
    }
}

/// Multiplication in GF(2^8): the carryless product reduced by `MODULUS`.
pub open spec fn gf_mul(a: u8, b: u8) -> u8 {
    pmod(pmul(a as u32, b as u32), MODULUS as u32) as u8
}

#[via_fn]
proof fn pmod_decreases(a: u32, m: u32) {
    if m != 0 && pdeg(a) >= pdeg(m) {
        lemma_reduction_step_shrinks(a, m);
    }
}

#[via_fn]
proof fn pquot_decreases(a: u32, m: u32) {
    if m != 0 && pdeg(a) >= pdeg(m) {
        lemma_reduction_step_shrinks(a, m);
    }
}

/// Basic facts about `pdeg`: the degree of a nonzero polynomial is the
/// position of its top bit, so `pow2(pdeg(a)) <= a < pow2(pdeg(a) + 1)`.
pub proof fn lemma_pdeg_bounds(a: u32)
    requires
        a != 0,
    ensures
        0 <= pdeg(a) <= 31,
        pow2(pdeg(a) as nat) <= a < pow2((pdeg(a) + 1) as nat),
    decreases a,
{
    lemma2_to64();
    if a == 1 {
        assert(pdeg(1u32) == 0) by {
            reveal_with_fuel(pdeg, 2);
        }
    } else {
        lemma_pdeg_bounds(a / 2);
        let p = pdeg(a / 2);
        lemma_pow2_adds(p as nat, 1);
        lemma_pow2_adds((p + 1) as nat, 1);
        if p + 1 > 31 {
            // pow2 is nondecreasing, so pow2(p + 1) >= pow2(32) > u32::MAX,
            // contradicting pow2(p + 1) <= 2 * (a / 2) <= a.
            lemma_pow2_strictly_increases(31, (p + 1) as nat);
            lemma2_to64_rest();
            assert(false);
        }
    }
}

/// The degree function is pinned down by the dyadic interval: if
/// `pow2(d) <= a < pow2(d + 1)` then `pdeg(a) == d`.
pub proof fn lemma_pdeg_of_bounds(a: u32, d: int)
    requires
        0 <= d,
        pow2(d as nat) <= a < pow2((d + 1) as nat),
    ensures
        pdeg(a) == d,
{
    lemma_pow2_pos(d as nat);
    lemma_pdeg_bounds(a);
    let p = pdeg(a);
    if p < d {
        lemma_pow2_nondecreasing((p + 1) as nat, d as nat);
        assert(false);
    }
    if p > d {
        lemma_pow2_nondecreasing((d + 1) as nat, p as nat);
        assert(false);
    }
}

/// pow2 is nondecreasing.
pub proof fn lemma_pow2_nondecreasing(e1: nat, e2: nat)
    requires
        e1 <= e2,
    ensures
        pow2(e1) <= pow2(e2),
{
    if e1 < e2 {
        lemma_pow2_strictly_increases(e1, e2);
    }
}

/// A polynomial below `pow2(k)` has degree below `k`.
pub proof fn lemma_pdeg_lt(a: u32, k: nat)
    requires
        a < pow2(k),
    ensures
        pdeg(a) < k,
{
    if a != 0 {
        lemma_pdeg_bounds(a);
        let p = pdeg(a);
        if p >= k {
            lemma_pow2_nondecreasing(k, p as nat);
            assert(false);
        }
    }
}

/// Aligning the divisor under the dividend's leading bit and xoring clears
/// that bit: the result is strictly smaller than the dividend.
pub proof fn lemma_reduction_step_shrinks(a: u32, m: u32)
    requires
        m != 0,
        pdeg(a) >= pdeg(m),
    ensures
        a ^ (m << ((pdeg(a) - pdeg(m)) as u32)) < pow2(pdeg(a) as nat) <= a,
        pdeg(a ^ (m << ((pdeg(a) - pdeg(m)) as u32))) < pdeg(a),
{
    let d = pdeg(a);
    let e = pdeg(m);
    let k = (d - e) as nat;
    lemma_pdeg_bounds(m);
    assert(a != 0) by {
        if a == 0 {
            assert(pdeg(0u32) == -1) by {
                reveal_with_fuel(pdeg, 1);
            }
        }
    }
    lemma_pdeg_bounds(a);
    let y = m << (k as u32);
    lemma_shl_in_dyadic_interval(m, e, k);
    lemma_xor_of_same_top(a, y, d);
    lemma_pdeg_lt(a ^ y, d as nat);
}

/// Shifting a polynomial of degree `e` left by `k` lands it in the dyadic
/// interval of degree `e + k`.
pub proof fn lemma_shl_in_dyadic_interval(m: u32, e: int, k: nat)
    requires
        m != 0,
        e == pdeg(m),
        e + k <= 31,
    ensures
        pow2((e + k) as nat) <= (m << (k as u32)) < pow2((e + k + 1) as nat),
        (m << (k as u32)) == m * pow2(k),
        pdeg(m << (k as u32)) == e + k,
{
    lemma_pdeg_bounds(m);
    lemma_pow2_adds(e as nat, k);
    lemma_pow2_adds((e + 1) as nat, k);
    lemma_pow2_pos(k);
    assert(pow2((e + k) as nat) <= m * pow2(k) < pow2((e + k + 1) as nat)) by (nonlinear_arith)
        requires
            pow2(e as nat) <= m < pow2((e + 1) as nat),
            pow2(k) > 0,
            pow2((e + k) as nat) == pow2(e as nat) * pow2(k),
            pow2((e + k + 1) as nat) == pow2((e + 1) as nat) * pow2(k),
    ;
    assert(pow2((e + k + 1) as nat) <= pow2(32)) by {
        lemma_pow2_nondecreasing((e + k + 1) as nat, 32);
    }
    assert(pow2(32) == 0x1_0000_0000) by {
        lemma2_to64();
    }
    lemma_u32_shl_is_mul(m, k as u32);
    lemma_pdeg_of_bounds(m << (k as u32), e + k);
}

/// Xor with the zero polynomial, and with itself.
pub proof fn lemma_xor_unit(x: u32)
    by (bit_vector)
    ensures
        x ^ 0u32 == x,
        0u32 ^ x == x,
        x ^ x == 0u32,
{
}

/// Xor of polynomials is commutative.
pub proof fn lemma_xor_comm(x: u32, y: u32)
    by (bit_vector)
    ensures
        x ^ y == y ^ x,
{
}

/// Xor of polynomials is associative.
pub proof fn lemma_xor_assoc(x: u32, y: u32, z: u32)
    by (bit_vector)
    ensures
        (x ^ y) ^ z == x ^ (y ^ z),
{
}

/// How multiplication by x (shift left by one) interacts with xor, parity
/// and halving.
pub proof fn lemma_shl1(x: u32, y: u32)
    by (bit_vector)
    ensures
        ((x ^ y) << 1u32) == (x << 1u32) ^ (y << 1u32),
        x % 2 == 0 ==> ((x / 2) << 1u32) == x,
        x % 2 == 1 ==> ((x / 2) << 1u32) == x ^ 1u32,
        (0u32 << 1u32) == 0u32,
        x < 0x8000_0000 ==> (x << 1u32) == 2 * x,
{
}

/// Two polynomials with the same top bit xor to something strictly below
/// that bit.
pub proof fn lemma_xor_of_same_top(x: u32, y: u32, d: int)
    requires
        0 <= d <= 31,
        pow2(d as nat) <= x < pow2((d + 1) as nat),
        pow2(d as nat) <= y < pow2((d + 1) as nat),
    ensures
        (x ^ y) < pow2(d as nat),
{
    let dd = d as u64;
    assert(pow2((d + 1) as nat) <= pow2(32)) by {
        lemma_pow2_nondecreasing((d + 1) as nat, 32);
    }
    lemma2_to64();
    lemma_u64_shl_is_mul(1u64, dd);
    lemma_u64_shl_is_mul(1u64, (dd + 1) as u64);
    assert((x as u64) ^ (y as u64) < (1u64 << dd)) by (bit_vector)
        requires
            dd < 32,
            (1u64 << dd) <= (x as u64) < (1u64 << (dd + 1)),
            (1u64 << dd) <= (y as u64) < (1u64 << (dd + 1)),
    ;
    assert((x ^ y) as u64 == (x as u64) ^ (y as u64)) by (bit_vector);
}

/// Xor of two polynomials below a bound stays below the bound.
pub proof fn lemma_xor_below(x: u32, y: u32, k: nat)
    requires
        k <= 32,
        x < pow2(k),
        y < pow2(k),
    ensures
        (x ^ y) < pow2(k),
{
    let kk = k as u64;
    lemma2_to64();
    lemma_pow2_nondecreasing(k, 32);
    lemma_u64_shl_is_mul(1u64, kk);
    assert((x as u64) ^ (y as u64) < (1u64 << kk)) by (bit_vector)
        requires
            kk <= 32,
            (x as u64) < (1u64 << kk),
            (y as u64) < (1u64 << kk),
    ;
    assert((x ^ y) as u64 == (x as u64) ^ (y as u64)) by (bit_vector);
}

/// The degree of any polynomial is at least -1.
pub proof fn lemma_pdeg_ge_neg1(a: u32)
    ensures
        pdeg(a) >= -1,
        a != 0 <==> pdeg(a) >= 0,
    decreases a,
{
    if a != 0 {
        lemma_pdeg_ge_neg1(a / 2);
    }
}

/// Xoring in a polynomial of strictly lower degree keeps the degree.
pub proof fn lemma_pdeg_xor_lower(x: u32, y: u32)
    requires
        pdeg(y) < pdeg(x),
    ensures
        pdeg(x ^ y) == pdeg(x),
        (x ^ y) != 0,
{
    lemma_pdeg_ge_neg1(y);
    lemma_pdeg_bounds(x);
    let d = pdeg(x);
    if y == 0 {
        lemma_xor_unit(x);
    } else {
        lemma_pdeg_bounds(y);
        lemma_pow2_nondecreasing((pdeg(y) + 1) as nat, d as nat);
        let dd = d as u64;
        assert(pow2((d + 1) as nat) <= pow2(32)) by {
            lemma_pow2_nondecreasing((d + 1) as nat, 32);
        }
        lemma2_to64();
        lemma_u64_shl_is_mul(1u64, dd);
        lemma_u64_shl_is_mul(1u64, (dd + 1) as u64);
        assert((1u64 << dd) <= (x as u64) ^ (y as u64) && (x as u64) ^ (y as u64) < (1u64 << (dd
            + 1))) by (bit_vector)
            requires
                dd < 32,
                (1u64 << dd) <= (x as u64) < (1u64 << (dd + 1)),
                (y as u64) < (1u64 << dd),
        ;
        assert((x ^ y) as u64 == (x as u64) ^ (y as u64)) by (bit_vector);
        lemma_pdeg_of_bounds(x ^ y, d);
        lemma_pow2_pos(d as nat);
    }
}

/// The degree of an xor never exceeds the larger operand degree.
pub proof fn lemma_pdeg_xor_le(x: u32, y: u32)
    ensures
        pdeg(x ^ y) <= if pdeg(x) >= pdeg(y) {
            pdeg(x)
        } else {
            pdeg(y)
        },
{
    if x == 0 {
        lemma_xor_unit(y);
        if y != 0 {
            lemma_pdeg_bounds(y);
        }
    } else if y == 0 {
        lemma_xor_unit(x);
        lemma_pdeg_bounds(x);
    } else {
        lemma_pdeg_bounds(x);
        lemma_pdeg_bounds(y);
        let d = if pdeg(x) >= pdeg(y) {
            pdeg(x)
        } else {
            pdeg(y)
        };
        lemma_pow2_nondecreasing((pdeg(x) + 1) as nat, (d + 1) as nat);
        lemma_pow2_nondecreasing((pdeg(y) + 1) as nat, (d + 1) as nat);
        lemma_xor_below(x, y, (d + 1) as nat);
        lemma_pdeg_lt(x ^ y, (d + 1) as nat);
    }
}

/// Multiplication by the zero polynomial.
pub proof fn lemma_pmul_zero(a: u32, b: u32)
    ensures
        pmul(a, 0) == 0,
        pmul(0, b) == 0,
    decreases a,
{
    if a != 0 {
        lemma_pmul_zero(a / 2, b);
        lemma_shl1(0, 0);
        lemma_xor_unit(0);
    }
}

/// Unfolding `pmul` on its second argument: the product can equally be
/// computed by splitting `b` into its low bit and its upper bits.
pub proof fn lemma_pmul_swap(a: u32, b: u32)
    ensures
        pmul(a, b) == (if b % 2 == 1 {
            a
        } else {
            0u32
        }) ^ (pmul(a, b / 2) << 1u32),
    decreases a,
{
    if a == 0 {
        lemma_pmul_zero(0, b);
        lemma_pmul_zero(0, b / 2);
        lemma_shl1(0, 0);
        lemma_xor_unit(0);
    } else {
        lemma_pmul_swap(a / 2, b);
        let x = pmul(a / 2, b / 2);
        let cb2 = if b % 2 == 1 {
            a / 2
        } else {
            0u32
        };
        let ca2 = if a % 2 == 1 {
            b / 2
        } else {
            0u32
        };
        // pmul(a/2, b) == cb2 ^ (x << 1), so
        // pmul(a, b) == ca ^ ((cb2 ^ (x << 1)) << 1) == ca ^ (cb2 << 1) ^ ((x << 1) << 1).
        // pmul(a, b/2) == ca2 ^ (x << 1) by definition, so the goal is
        // cb ^ (ca2 << 1) ^ ((x << 1) << 1).
        lemma_shl1(cb2, x << 1u32);
        lemma_shl1(ca2, x << 1u32);
        let t = (x << 1u32) << 1u32;
        lemma_shl1(a, 0);
        lemma_shl1(b, 0);
        if a % 2 == 1 {
            if b % 2 == 1 {
                assert(b ^ (((a / 2) << 1u32) ^ t) == a ^ (((b / 2) << 1u32) ^ t)) by (bit_vector)
                    requires
                        ((a / 2) << 1u32) == a ^ 1u32,
                        ((b / 2) << 1u32) == b ^ 1u32,
                ;
            } else {
                assert(b ^ (0u32 ^ t) == ((b / 2) << 1u32) ^ (((b / 2) << 1u32) ^ (b ^ (0u32
                    ^ t)))) by (bit_vector);
                assert(b ^ (0u32 ^ t) == 0u32 ^ (((b / 2) << 1u32) ^ t)) by (bit_vector)
                    requires
                        ((b / 2) << 1u32) == b,
                ;
            }
        } else {
            if b % 2 == 1 {
                assert(0u32 ^ (((a / 2) << 1u32) ^ t) == a ^ (0u32 ^ t)) by (bit_vector)
                    requires
                        ((a / 2) << 1u32) == a,
                ;
            } else {
                assert(0u32 ^ (0u32 ^ t) == 0u32 ^ (0u32 ^ t));
            }
        }
    }
}

/// The carryless product is commutative.
pub proof fn lemma_pmul_comm(a: u32, b: u32)
    ensures
        pmul(a, b) == pmul(b, a),
    decreases a,
{
    lemma_pmul_swap(b, a);
    if a == 0 {
        lemma_pmul_zero(b, b);
        lemma_pmul_zero(b / 2, b);
        lemma_shl1(0, 0);
        lemma_xor_unit(0);
    } else {
        lemma_pmul_comm(a / 2, b);
    }
}

/// The carryless product distributes over xor on the right.
pub proof fn lemma_pmul_dist_right(a: u32, b: u32, c: u32)
    ensures
        pmul(a, b ^ c) == pmul(a, b) ^ pmul(a, c),
    decreases a,
{
    if a == 0 {
        lemma_xor_unit(0);
    } else {
        lemma_pmul_dist_right(a / 2, b, c);
        let x1 = pmul(a / 2, b) << 1u32;
        let y1 = pmul(a / 2, c) << 1u32;
        lemma_shl1(pmul(a / 2, b), pmul(a / 2, c));
        if a % 2 == 1 {
            assert((b ^ c) ^ (x1 ^ y1) == (b ^ x1) ^ (c ^ y1)) by (bit_vector);
        } else {
            assert(0u32 ^ (x1 ^ y1) == (0u32 ^ x1) ^ (0u32 ^ y1)) by (bit_vector);
        }
    }
}

/// The carryless product distributes over xor on the left.
pub proof fn lemma_pmul_dist_left(a: u32, b: u32, c: u32)
    ensures
        pmul(a ^ b, c) == pmul(a, c) ^ pmul(b, c),
{
    lemma_pmul_comm(a ^ b, c);
    lemma_pmul_comm(a, c);
    lemma_pmul_comm(b, c);
    lemma_pmul_dist_right(c, a, b);
}

/// The polynomial 1 is the multiplicative unit.
pub proof fn lemma_pmul_one(a: u32)
    ensures
        pmul(a, 1) == a,
        pmul(1, a) == a,
    decreases a,
{
    lemma_pmul_swap(a, 1);
    lemma_pmul_zero(a, a);
    lemma_pmul_zero(0, a);
    lemma_shl1(0, 0);
    lemma_xor_unit(a);
}

/// Multiplying by the monomial x^k shifts by k.
pub proof fn lemma_pmul_monomial(k: u32, b: u32)
    requires
        k <= 31,
    ensures
        pmul(1u32 << k, b) == (b << k),
    decreases k,
{
    if k == 0 {
        assert(1u32 << 0u32 == 1u32 && b << 0u32 == b) by (bit_vector);
        lemma_pmul_one(b);
    } else {
        let km1 = (k - 1) as u32;
        lemma_pmul_monomial(km1, b);
        assert((1u32 << k) % 2 == 0 && (1u32 << k) / 2 == 1u32 << km1 && (1u32 << k) != 0 && ((b
            << km1) << 1u32) == b << k) by (bit_vector)
            requires
                1 <= k <= 31,
                km1 == k - 1,
        ;
        lemma_xor_unit((b << km1) << 1u32);
    }
}

/// The degree of a product of nonzero polynomials is the sum of the
/// degrees, as long as nothing is shifted out.
pub proof fn lemma_pmul_deg(a: u32, b: u32)
    requires
        a != 0,
        b != 0,
        pdeg(a) + pdeg(b) <= 31,
    ensures
        pmul(a, b) != 0,
        pdeg(pmul(a, b)) == pdeg(a) + pdeg(b),
    decreases a,
{
    lemma_pdeg_bounds(a);
    lemma_pdeg_bounds(b);
    if a == 1 {
        lemma_pmul_one(b);
        assert(pdeg(1u32) == 0) by {
            reveal_with_fuel(pdeg, 2);
        }
    } else {
        lemma_pmul_deg(a / 2, b);
        lemma_pdeg_bounds(a / 2);
        let p = pmul(a / 2, b);
        lemma_pdeg_shl1(p);
        if a % 2 == 1 {
            lemma_pdeg_xor_lower(p << 1u32, b);
            lemma_xor_comm(b, p << 1u32);
        } else {
            lemma_xor_unit(p << 1u32);
        }
    }
}

/// A polynomial of degree below `k` lies below `pow2(k)`.
pub proof fn lemma_pdeg_lt_inv(x: u32, k: nat)
    requires
        pdeg(x) < k,
    ensures
        x < pow2(k),
{
    lemma_pow2_pos(k);
    if x != 0 {
        lemma_pdeg_bounds(x);
        lemma_pow2_nondecreasing((pdeg(x) + 1) as nat, k);
    }
}

/// The monomial x^k has degree k.
pub proof fn lemma_pdeg_monomial(k: u32)
    requires
        k <= 31,
    ensures
        pdeg(1u32 << k) == k,
        (1u32 << k) == pow2(k as nat),
{
    lemma_pow2_nondecreasing(k as nat, 31);
    lemma2_to64();
    lemma_u32_shl_is_mul(1u32, k);
    lemma_pow2_pos(k as nat);
    lemma_pow2_adds(k as nat, 1);
    lemma_pdeg_of_bounds(1u32 << k, k as int);
}

/// The remainder of a polynomial already below the divisor's degree is the
/// polynomial itself.
pub proof fn lemma_pmod_small(a: u32, m: u32)
    requires
        m != 0,
        pdeg(a) < pdeg(m),
    ensures
        pmod(a, m) == a,
        pquot(a, m) == 0,
{
}

/// The remainder's degree is strictly below the divisor's.
pub proof fn lemma_pmod_deg(a: u32, m: u32)
    requires
        m != 0,
    ensures
        pdeg(pmod(a, m)) < pdeg(m),
    decreases a,
{
    if pdeg(a) >= pdeg(m) {
        lemma_reduction_step_shrinks(a, m);
        lemma_pmod_deg(a ^ (m << ((pdeg(a) - pdeg(m)) as u32)), m);
    }
}

/// Long division reconstructs the dividend: quotient times divisor plus
/// remainder gives it back, and the quotient's degree is the difference of
/// degrees.
pub proof fn lemma_pmod_decomp(a: u32, m: u32)
    requires
        m != 0,
    ensures
        pmul(pquot(a, m), m) ^ pmod(a, m) == a,
        pquot(a, m) == 0 || pdeg(pquot(a, m)) == pdeg(a) - pdeg(m),
    decreases a,
{
    lemma_pdeg_ge_neg1(m);
    if pdeg(a) < pdeg(m) {
        lemma_pmul_zero(0, m);
        lemma_xor_unit(a);
    } else {
        lemma_pdeg_bounds(a);
        let k = (pdeg(a) - pdeg(m)) as u32;
        let ap = a ^ (m << k);
        lemma_reduction_step_shrinks(a, m);
        lemma_pmod_decomp(ap, m);
        let qp = pquot(ap, m);
        let r = pmod(ap, m);
        lemma_pmul_dist_left(qp, 1u32 << k, m);
        lemma_pmul_monomial(k, m);
        // pmul(qp ^ (1 << k), m) ^ r == (pmul(qp, m) ^ (m << k)) ^ r
        //                            == (pmul(qp, m) ^ r) ^ (m << k)
        //                            == ap ^ (m << k) == a.
        let pq = pmul(qp, m);
        let mk = m << k;
        lemma_xor_assoc(pq, mk, r);
        lemma_xor_comm(mk, r);
        lemma_xor_assoc(pq, r, mk);
        assert((pq ^ mk) ^ r == ap ^ mk);
        lemma_xor_assoc(a, mk, mk);
        lemma_xor_unit(mk);
        lemma_xor_unit(a);
        assert(ap ^ mk == a);
        // The quotient's top monomial is x^k, and k exceeds the degree of
        // everything contributed by later steps.
        lemma_pdeg_monomial(k);
        if qp == 0 {
            lemma_xor_unit(1u32 << k);
        } else {
            lemma_pdeg_xor_lower(1u32 << k, qp);
            lemma_xor_comm(1u32 << k, qp);
        }
    }
}

/// When the dividend's degree reaches the divisor's, the quotient is a
/// nonzero polynomial whose degree is the difference of the degrees.
pub proof fn lemma_pquot_nonzero(a: u32, m: u32)
    requires
        m != 0,
        pdeg(a) >= pdeg(m),
    ensures
        pquot(a, m) != 0,
        pdeg(pquot(a, m)) == pdeg(a) - pdeg(m),
{
    lemma_pdeg_ge_neg1(m);
    lemma_pdeg_bounds(a);
    let k = (pdeg(a) - pdeg(m)) as u32;
    let ap = a ^ (m << k);
    lemma_reduction_step_shrinks(a, m);
    lemma_pmod_decomp(ap, m);
    lemma_pdeg_monomial(k);
    lemma_pdeg_ge_neg1(pquot(a, m));
    if pquot(ap, m) == 0 {
        lemma_xor_unit(1u32 << k);
    } else {
        lemma_pdeg_xor_lower(1u32 << k, pquot(ap, m));
        lemma_xor_comm(1u32 << k, pquot(ap, m));
    }
}

/// Quotient and remainder are unique: any pair that reconstructs the
/// dividend with a small enough remainder is the pair long division finds.
pub proof fn lemma_division_unique(q1: u32, r1: u32, q2: u32, r2: u32, m: u32)
    requires
        m != 0,
        pdeg(q1) + pdeg(m) <= 31,
        pdeg(q2) + pdeg(m) <= 31,
        pdeg(r1) < pdeg(m),
        pdeg(r2) < pdeg(m),
        pmul(q1, m) ^ r1 == pmul(q2, m) ^ r2,
    ensures
        q1 == q2,
        r1 == r2,
{
    lemma_pdeg_ge_neg1(m);
    let dq = q1 ^ q2;
    lemma_pmul_dist_left(q1, q2, m);
    let p1 = pmul(q1, m);
    let p2 = pmul(q2, m);
    assert(p1 ^ p2 == r1 ^ r2) by (bit_vector)
        requires
            p1 ^ r1 == p2 ^ r2,
    ;
    if dq != 0 {
        lemma_pdeg_xor_le(q1, q2);
        lemma_pdeg_ge_neg1(dq);
        lemma_pmul_deg(dq, m);
        lemma_pdeg_xor_le(r1, r2);
        assert(false);
    }
    lemma_pmul_zero(0, m);
    assert(q1 == q2 && r1 == r2) by (bit_vector)
        requires
            q1 ^ q2 == 0,
            r1 ^ r2 == 0,
    ;
}

/// Reduction is linear: the remainder of an xor is the xor of the
/// remainders.
pub proof fn lemma_pmod_linear(x: u32, y: u32, m: u32)
    requires
        m != 0,
    ensures
        pmod(x ^ y, m) == pmod(x, m) ^ pmod(y, m),
{
    lemma_pdeg_ge_neg1(m);
    lemma_pmod_decomp(x, m);
    lemma_pmod_decomp(y, m);
    lemma_pmod_decomp(x ^ y, m);
    lemma_pmod_deg(x, m);
    lemma_pmod_deg(y, m);
    lemma_pmod_deg(x ^ y, m);
    let qx = pquot(x, m);
    let qy = pquot(y, m);
    let rx = pmod(x, m);
    let ry = pmod(y, m);
    lemma_pmul_dist_left(qx, qy, m);
    let px = pmul(qx, m);
    let py = pmul(qy, m);
    assert((px ^ py) ^ (rx ^ ry) == x ^ y) by (bit_vector)
        requires
            px ^ rx == x,
            py ^ ry == y,
    ;
    lemma_pdeg_xor_le(rx, ry);
    lemma_pdeg_xor_le(qx, qy);
    lemma_quot_deg_le(x, m);
    lemma_quot_deg_le(y, m);
    lemma_quot_deg_le(x ^ y, m);
    lemma_division_unique(qx ^ qy, rx ^ ry, pquot(x ^ y, m), pmod(x ^ y, m), m);
}

/// The quotient's degree leaves room for the divisor's: their sum stays
/// within the representation.
pub proof fn lemma_quot_deg_le(x: u32, m: u32)
    requires
        m != 0,
    ensures
        pdeg(pquot(x, m)) + pdeg(m) <= 31,
{
    lemma_pdeg_ge_neg1(m);
    lemma_pdeg_bounds(m);
    lemma_pmod_decomp(x, m);
    if pquot(x, m) == 0 {
        lemma_pdeg_ge_neg1(0);
    } else {
        lemma_pdeg_ge_neg1(x);
        if x != 0 {
            lemma_pdeg_bounds(x);
        }
    }
}

/// Shifting a nonzero polynomial left by one raises its degree by one.
pub proof fn lemma_pdeg_shl1(p: u32)
    requires
        p != 0,
        pdeg(p) <= 30,
    ensures
        (p << 1u32) != 0,
        pdeg(p << 1u32) == pdeg(p) + 1,
{
    lemma_pdeg_bounds(p);
    let d = pdeg(p);
    assert(p < 0x8000_0000) by {
        lemma_pow2_nondecreasing((d + 1) as nat, 31);
        lemma2_to64();
    }
    lemma_shl1(p, 0);
    lemma_pow2_adds(d as nat, 1);
    lemma_pow2_adds((d + 1) as nat, 1);
    lemma2_to64();
    lemma_pdeg_of_bounds(p << 1u32, d + 1);
    lemma_pow2_pos((d + 1) as nat);
}

/// The greatest common divisor of two polynomials, by the Euclidean
/// algorithm.
pub open spec fn pgcd(x: u32, y: u32) -> u32
    decreases y,
        via pgcd_decreases
{
    if y == 0 {
        x
    } else {
        pgcd(y, pmod(x, y))
    }
}

#[via_fn]
proof fn pgcd_decreases(x: u32, y: u32) {
    if y != 0 {
        lemma_pmod_lt(x, y);
    }
}

/// The remainder is smaller than the divisor, as a value.
pub proof fn lemma_pmod_lt(x: u32, y: u32)
    requires
        y != 0,
    ensures
        pmod(x, y) < y,
{
    lemma_pmod_deg(x, y);
    lemma_pdeg_bounds(y);
    lemma_pdeg_lt_inv(pmod(x, y), pdeg(y) as nat);
}

/// A polynomial at or above `pow2(k)` has degree at least `k`.
pub proof fn lemma_pdeg_ge_of(x: u32, k: nat)
    requires
        pow2(k) <= x,
    ensures
        pdeg(x) >= k,
{
    if pdeg(x) < k {
        lemma_pdeg_lt_inv(x, k);
    }
}

/// A polynomial is a multiple of itself: its remainder by itself is zero.
pub proof fn lemma_pmod_self(m: u32)
    requires
        m != 0,
    ensures
        pmod(m, m) == 0,
{
    assert(m << 0u32 == m) by (bit_vector);
    lemma_xor_unit(m);
    lemma_pdeg_ge_neg1(m);
    lemma_pmod_small(0, m);
    assert(pmod(m, m) == pmod(m ^ (m << ((pdeg(m) - pdeg(m)) as u32)), m));
}

/// Multiples of the divisor reduce to zero.
pub proof fn lemma_pmod_of_multiple(t: u32, m: u32)
    requires
        m != 0,
        pdeg(t) + pdeg(m) <= 31,
    ensures
        pmod(pmul(t, m), m) == 0,
{
    lemma_pdeg_ge_neg1(m);
    lemma_pdeg_ge_neg1(0);
    let p = pmul(t, m);
    lemma_pmod_decomp(p, m);
    lemma_pmod_deg(p, m);
    lemma_quot_deg_le(p, m);
    lemma_xor_unit(p);
    lemma_division_unique(t, 0, pquot(p, m), pmod(p, m), m);
}

/// Shifting the left operand shifts the product: multiplying by x commutes
/// with the carryless product.
pub proof fn lemma_pmul_shl1_left(x: u32, c: u32)
    ensures
        pmul(x << 1u32, c) == pmul(x, c) << 1u32,
    decreases x,
{
    if x == 0 {
        lemma_shl1(0, 0);
        lemma_pmul_zero(0, c);
    } else if x < 0x8000_0000 {
        lemma_shl1(x, 0);
        assert((x << 1u32) != 0 && (x << 1u32) % 2 == 0 && (x << 1u32) / 2 == x) by (bit_vector)
            requires
                0 < x < 0x8000_0000,
        ;
        lemma_xor_unit(pmul(x, c) << 1u32);
    } else {
        // The top bit of x is shifted out on the left; on the right its
        // contribution c << 31 is shifted out of the product.
        let xl = x ^ 0x8000_0000u32;
        assert((x << 1u32) == (xl << 1u32) && xl < 0x8000_0000 && xl == x ^ (1u32 << 31u32))
            by (bit_vector)
            requires
                x >= 0x8000_0000,
                xl == x ^ 0x8000_0000u32,
        ;
        lemma_pmul_shl1_left(xl, c);
        lemma_pmul_dist_left(xl, 1u32 << 31u32, c);
        lemma_pmul_monomial(31, c);
        lemma_shl1(pmul(xl, c), c << 31u32);
        assert(((c << 31u32) << 1u32) == 0u32) by (bit_vector);
        lemma_xor_unit(pmul(xl, c) << 1u32);
        assert(x == xl ^ (1u32 << 31u32)) by (bit_vector)
            requires
                xl == x ^ (1u32 << 31u32),
        ;
    }
}

/// The carryless product is associative.
pub proof fn lemma_pmul_assoc(a: u32, b: u32, c: u32)
    ensures
        pmul(pmul(a, b), c) == pmul(a, pmul(b, c)),
    decreases a,
{
    if a == 0 {
        lemma_pmul_zero(0, b);
        lemma_pmul_zero(0, c);
        lemma_pmul_zero(0, pmul(b, c));
    } else {
        lemma_pmul_assoc(a / 2, b, c);
        let p = pmul(a / 2, b);
        let cb = if a % 2 == 1 {
            b
        } else {
            0u32
        };
        // pmul(a, b) == cb ^ (p << 1)
        lemma_pmul_dist_left(cb, p << 1u32, c);
        lemma_pmul_shl1_left(p, c);
        if a % 2 == 1 {
        } else {
            lemma_pmul_zero(0, c);
            lemma_xor_unit(pmul(p, c) << 1u32);
            lemma_xor_unit(pmul(a / 2, pmul(b, c)) << 1u32);
        }
    }
}

/// The reduction modulus has degree 8.
pub proof fn lemma_modulus_deg()
    ensures
        pdeg(MODULUS as u32) == 8,
{
    assert(pdeg(0x12Bu32) == 8) by {
        reveal_with_fuel(pdeg, 10);
    }
}

/// A byte value, seen as a polynomial, has degree at most 7, and is its
/// own remainder modulo the field modulus.
pub proof fn lemma_byte_reduced(a: u8)
    ensures
        pdeg(a as u32) < 8,
        pmod(a as u32, MODULUS as u32) == a as u32,
{
    lemma2_to64();
    lemma_pdeg_lt(a as u32, 8);
    lemma_modulus_deg();
    lemma_pmod_small(a as u32, MODULUS as u32);
}

/// A reduced value fits in a byte.
pub proof fn lemma_pmod_fits_byte(x: u32)
    ensures
        pmod(x, MODULUS as u32) < 256,
{
    lemma_modulus_deg();
    lemma_pmod_deg(x, MODULUS as u32);
    lemma_pdeg_lt_inv(pmod(x, MODULUS as u32), 8);
    lemma2_to64();
}

/// Field addition laws: xor on bytes is commutative and associative,
/// has zero as its identity, and every element is its own additive
/// inverse, so addition and subtraction coincide.
pub proof fn lemma_gf_add_laws(a: u8, b: u8, c: u8)
    by (bit_vector)
    ensures
        a ^ b == b ^ a,
        (a ^ b) ^ c == a ^ (b ^ c),
        a ^ 0 == a,
        a ^ a == 0,
{
}

/// Multiplication in GF(2^8) is commutative.
pub proof fn lemma_gf_mul_comm(a: u8, b: u8)
    ensures
        gf_mul(a, b) == gf_mul(b, a),
{
    lemma_pmul_comm(a as u32, b as u32);
}

/// Zero annihilates in GF(2^8).
pub proof fn lemma_gf_mul_zero(a: u8)
    ensures
        gf_mul(a, 0) == 0,
        gf_mul(0, a) == 0,
{
    lemma_pmul_zero(a as u32, a as u32);
    lemma_byte_reduced(0);
}

/// One is the multiplicative unit of GF(2^8).
pub proof fn lemma_gf_mul_one(a: u8)
    ensures
        gf_mul(a, 1) == a,
        gf_mul(1, a) == a,
{
    lemma_pmul_one(a as u32);
    lemma_byte_reduced(a);
}

/// Multiplication in GF(2^8) distributes over addition (xor).
pub proof fn lemma_gf_mul_dist(a: u8, b: u8, c: u8)
    ensures
        gf_mul(a, b ^ c) == gf_mul(a, b) ^ gf_mul(a, c),
{
    let a32 = a as u32;
    let b32 = b as u32;
    let c32 = c as u32;
    assert((b ^ c) as u32 == (b as u32) ^ (c as u32)) by (bit_vector);
    lemma_pmul_dist_right(a32, b32, c32);
    lemma_modulus_deg();
    lemma_pmod_linear(pmul(a32, b32), pmul(a32, c32), MODULUS as u32);
    lemma_pmod_fits_byte(pmul(a32, b32));
    lemma_pmod_fits_byte(pmul(a32, c32));
    lemma_pmod_fits_byte(pmul(a32, b32) ^ pmul(a32, c32));
    let rb = pmod(pmul(a32, b32), MODULUS as u32);
    let rc = pmod(pmul(a32, c32), MODULUS as u32);
    assert((rb as u8) ^ (rc as u8) == (rb ^ rc) as u8) by (bit_vector);
}

/// Reducing a factor first does not change a reduced product.
pub proof fn lemma_pmod_compat_left(x: u32, y: u32, m: u32)
    requires
        m != 0,
        pdeg(x) + pdeg(y) <= 31,
    ensures
        pmod(pmul(pmod(x, m), y), m) == pmod(pmul(x, y), m),
{
    lemma_pdeg_ge_neg1(m);
    lemma_pmod_decomp(x, m);
    let q = pquot(x, m);
    let r = pmod(x, m);
    lemma_xor_comm(pmul(q, m), r);
    lemma_xor_assoc(r, pmul(q, m), pmul(q, m));
    lemma_xor_unit(pmul(q, m));
    lemma_xor_unit(r);
    assert(pmul(q, m) ^ r == x);
    assert(r ^ pmul(q, m) == x);
    // x == r ^ q * m, so x * y == r * y ^ (q * y) * m, and the multiple
    // of m vanishes under reduction.
    lemma_pmul_dist_left(r, pmul(q, m), y);
    lemma_pmul_comm(pmul(q, m), y);
    lemma_pmul_assoc(y, q, m);
    lemma_pmul_comm(y, q);
    assert(pmul(pmul(q, m), y) == pmul(pmul(q, y), m));
    lemma_pmod_linear(pmul(r, y), pmul(pmul(q, y), m), m);
    if pmul(q, y) == 0 {
        lemma_pmul_zero(0, m);
        lemma_pmod_small(0, m);
        lemma_pdeg_ge_neg1(0);
    } else {
        assert(q != 0 && y != 0) by {
            lemma_pmul_zero(q, y);
            if q == 0 {
                lemma_pmul_comm(0, y);
            }
        }
        lemma_pdeg_bounds(x);
        lemma_pmul_deg(q, y);
        lemma_pmod_of_multiple(pmul(q, y), m);
    }
    lemma_xor_unit(pmod(pmul(r, y), m));
}

/// Multiplication in GF(2^8) is associative.
pub proof fn lemma_gf_mul_assoc(a: u8, b: u8, c: u8)
    ensures
        gf_mul(gf_mul(a, b), c) == gf_mul(a, gf_mul(b, c)),
{
    let mm = MODULUS as u32;
    let a32 = a as u32;
    let b32 = b as u32;
    let c32 = c as u32;
    lemma_modulus_deg();
    lemma2_to64();
    lemma_pmod_fits_byte(pmul(a32, b32));
    lemma_pmod_fits_byte(pmul(b32, c32));
    lemma_pdeg_lt(a32, 8);
    lemma_pdeg_lt(b32, 8);
    lemma_pdeg_lt(c32, 8);
    if a32 != 0 && b32 != 0 {
        lemma_pmul_deg(a32, b32);
    } else {
        lemma_pmul_zero(a32, b32);
        lemma_pmul_zero(b32, b32);
        if a32 == 0 {
            lemma_pmul_comm(0, b32);
        }
    }
    if b32 != 0 && c32 != 0 {
        lemma_pmul_deg(b32, c32);
    } else {
        lemma_pmul_zero(b32, c32);
        lemma_pmul_zero(c32, c32);
        if b32 == 0 {
            lemma_pmul_comm(0, c32);
        }
    }
    lemma_pdeg_ge_neg1(a32);
    lemma_pdeg_ge_neg1(c32);
    lemma_pdeg_ge_neg1(pmul(a32, b32));
    lemma_pdeg_ge_neg1(pmul(b32, c32));
    lemma_pmod_compat_left(pmul(a32, b32), c32, mm);
    lemma_pmul_assoc(a32, b32, c32);
    // Reduce the other factor through commutativity.
    lemma_pmul_comm(a32, pmul(b32, c32));
    lemma_pmul_comm(a32, pmod(pmul(b32, c32), mm));
    lemma_pmod_compat_left(pmul(b32, c32), a32, mm);
}

/// Inverses in GF(2^8) are unique: one element cannot have two.
pub proof fn lemma_gf_inverse_unique(a: u8, b1: u8, b2: u8)
    requires
        gf_mul(a, b1) == 1,
        gf_mul(a, b2) == 1,
    ensures
        b1 == b2,
{
    // b1 == b1 * (a * b2) == (b1 * a) * b2 == b2.
    lemma_gf_mul_assoc(b1, a, b2);
    lemma_gf_mul_comm(a, b1);
    lemma_gf_mul_comm(a, b2);
    lemma_gf_mul_one(b1);
    lemma_gf_mul_one(b2);
}

} // verus!
