//! Elements of GF(2^8) and their arithmetic.
//!
//! `BiPoly` is a degree-at-most-7 polynomial over GF(2), one coefficient
//! per bit of a byte. `BiPoly16` is the 16-bit scratch value that holds
//! un-reduced products and the state of the extended-Euclidean inversion.
//! Every contract speaks of the spec model in [`crate::poly`].

use vstd::prelude::*;
use crate::poly::{
    pmul,
    pdeg,
    pmod,
    pquot,
    pgcd,
    gf_mul,
    MODULUS,
    lemma_pdeg_bounds,
    lemma_pdeg_ge_neg1,
    lemma_pdeg_ge_of,
    lemma_pdeg_lt,
    lemma_pdeg_lt_inv,
    lemma_pdeg_monomial,
    lemma_pmod_deg,
    lemma_pmod_small,
    lemma_pmod_fits_byte,
    lemma_pmod_linear,
    lemma_pmod_lt,
    lemma_pmod_of_multiple,
    lemma_pmod_self,
    lemma_pmul_assoc,
    lemma_pmul_comm,
    lemma_pmul_deg,
    lemma_pmul_dist_left,
    lemma_pmul_dist_right,
    lemma_pmul_one,
    lemma_pmul_zero,
    lemma_pmod_decomp,
    lemma_pquot_nonzero,
    lemma_pdeg_xor_le,
    lemma_pdeg_xor_lower,
    lemma_byte_reduced,
    lemma_modulus_deg,
    lemma_reduction_step_shrinks,
    lemma_xor_assoc,
    lemma_xor_comm,
    lemma_xor_unit,
};
use vstd::arithmetic::power2::{pow2, lemma2_to64};

verus! {

/// An element of GF(2^8): a binary polynomial of degree at most 7.
#[derive(Copy, Clone, Debug, Eq, PartialEq, Structural)]
pub struct BiPoly(pub u8);

/// A binary polynomial of degree at most 15: scratch space for products
/// before reduction and for the extended-Euclidean algorithm.
#[derive(Copy, Clone, Debug, Eq, PartialEq, Structural)]
pub struct BiPoly16(pub u16);

/// The ways polynomial long division can fail.
#[derive(Debug, Clone, PartialEq, Eq, Structural)]
pub enum PolyLongDivision {
    /// The divisor was the zero polynomial.
    AttemptDivisionByZeroError,
    /// The final remainder did not fit the 8 bits of a field element.
    ReminderBiggerThanModulo,
}

/// Degree of a nonzero polynomial, as the position of its top bit.
fn poly_deg(x: u32) -> (d: u8)
    requires
        x != 0,
    ensures
        d as int == pdeg(x),
        d <= 31,
{
    proof {
        lemma_pdeg_bounds(x);
    }
    let mut y: u32 = x;
    let mut d: u8 = 0;
    while y > 1
        invariant
            y >= 1,
            pdeg(x) == pdeg(y) + d as int,
            0 <= pdeg(y) <= 31,
            0 <= pdeg(x) <= 31,
            d <= 31,
        decreases y,
    {
        proof {
            lemma_pdeg_bounds(y / 2);
        }
        y = y / 2;
        d = d + 1;
    }
    proof {
        assert(pdeg(1u32) == 0) by {
            reveal_with_fuel(pdeg, 2);
        }
    }
    d
}

/// Carryless multiplication, processing the left operand bit by bit from
/// the top: shift the accumulator and mix in the right operand wherever
/// the left operand has a coefficient.
fn pmul_exec(a: u32, b: u32) -> (r: u32)
    requires
        a < 0x10000,
        b < 0x10000,
    ensures
        r == pmul(a, b),
{
    let mut acc: u32 = 0;
    let mut i: usize = 0;
    proof {
        assert(a >> 16u32 == 0) by (bit_vector)
            requires
                a < 0x10000,
        ;
    }
    while i < 16
        invariant
            i <= 16,
            a < 0x10000,
            b < 0x10000,
            acc == pmul(a >> ((16 - i) as u32), b),
        decreases 16 - i,
    {
        let sh: u32 = (15 - i) as u32;
        let bit: u32 = (a >> sh) & 1;
        proof {
            let sh1: u32 = (16 - i) as u32;
            assert((a >> sh) / 2 == (a >> sh1) && ((a >> sh) % 2 == ((a >> sh) & 1)))
                by (bit_vector)
                requires
                    sh < 16,
                    sh1 == sh + 1,
            ;
        }
        if bit == 1 {
            let shifted: u32 = acc << 1u32;
            proof {
                lemma_xor_comm(shifted, b);
            }
            acc = shifted ^ b;
        } else {
            proof {
                if (a >> sh) == 0 {
                    lemma_pmul_zero(0, b);
                    assert(0u32 << 1u32 == 0u32) by (bit_vector);
                } else {
                    lemma_xor_unit(pmul(a >> sh, b));
                    lemma_xor_unit(pmul((a >> ((16 - i) as u32)), b) << 1u32);
                }
            }
            acc = acc << 1u32;
        }
        i = i + 1;
    }
    proof {
        assert(a >> 0u32 == a) by (bit_vector);
    }
    acc
}

/// Polynomial long division on raw bits: returns the quotient and the
/// remainder of `n` by `d`.
fn pdivmod(n: u32, d: u32) -> (qr: (u32, u32))
    requires
        d != 0,
        n < 0x10000,
        d < 0x10000,
    ensures
        qr.0 == pquot(n, d),
        qr.1 == pmod(n, d),
{
    let dd: u8 = poly_deg(d);
    let thresh: u32 = 1u32 << (dd as u32);
    proof {
        lemma_pdeg_monomial(dd as u32);
        lemma_xor_unit(pquot(n, d));
    }
    let mut quot: u32 = 0;
    let mut rem: u32 = n;
    while rem >= thresh
        invariant
            d != 0,
            d < 0x10000,
            dd as int == pdeg(d),
            dd <= 31,
            thresh == pow2(dd as nat),
            thresh == (1u32 << (dd as u32)),
            rem < 0x10000,
            pmod(rem, d) == pmod(n, d),
            pquot(n, d) == quot ^ pquot(rem, d),
        decreases rem,
    {
        proof {
            vstd::arithmetic::power2::lemma_pow2_pos(dd as nat);
            lemma_pdeg_ge_of(rem, dd as nat);
            lemma_pdeg_bounds(rem);
        }
        let rd: u8 = poly_deg(rem);
        let k: u32 = (rd - dd) as u32;
        proof {
            lemma_reduction_step_shrinks(rem, d);
            let rem2 = rem ^ (d << k);
            lemma_xor_comm(pquot(rem2, d), 1u32 << k);
            lemma_xor_assoc(quot, 1u32 << k, pquot(rem2, d));
        }
        quot = quot ^ (1u32 << k);
        rem = rem ^ (d << k);
    }
    proof {
        vstd::arithmetic::power2::lemma_pow2_pos(dd as nat);
        lemma_pdeg_lt(rem, dd as nat);
        lemma_pmod_small(rem, d);
        lemma_xor_unit(quot);
    }
    (quot, rem)
}

impl BiPoly {
    /// The eight coefficients of the polynomial, lowest degree first.
    pub fn to_array(&self) -> (r: [bool; 8])
        ensures
            r[0] == ((self.0 >> 0u8) & 1 == 1),
            r[1] == ((self.0 >> 1u8) & 1 == 1),
            r[2] == ((self.0 >> 2u8) & 1 == 1),
            r[3] == ((self.0 >> 3u8) & 1 == 1),
            r[4] == ((self.0 >> 4u8) & 1 == 1),
            r[5] == ((self.0 >> 5u8) & 1 == 1),
            r[6] == ((self.0 >> 6u8) & 1 == 1),
            r[7] == ((self.0 >> 7u8) & 1 == 1),
    {
        [
            (self.0 >> 0u8) & 1 == 1,
            (self.0 >> 1u8) & 1 == 1,
            (self.0 >> 2u8) & 1 == 1,
            (self.0 >> 3u8) & 1 == 1,
            (self.0 >> 4u8) & 1 == 1,
            (self.0 >> 5u8) & 1 == 1,
            (self.0 >> 6u8) & 1 == 1,
            (self.0 >> 7u8) & 1 == 1,
        ]
    }

    /// Addition in GF(2^8): coefficient-wise xor.
    pub fn add(&self, other: &BiPoly) -> (r: BiPoly)
        ensures
            r.0 == self.0 ^ other.0,
    {
        BiPoly(self.0 ^ other.0)
    }

    /// Subtraction equals addition in a field of characteristic two.
    pub fn sub(&self, other: &BiPoly) -> (r: BiPoly)
        ensures
            r.0 == self.0 ^ other.0,
    {
        BiPoly(self.0 ^ other.0)
    }

    /// Subtraction of a 16-bit polynomial, widening this element first.
    pub fn sub16(&self, other: &BiPoly16) -> (r: BiPoly16)
        ensures
            r.0 == (self.0 as u16) ^ other.0,
    {
        BiPoly16((self.0 as u16) ^ other.0)
    }

    /// Multiplication in GF(2^8): the carryless product of the two
    /// elements, reduced modulo `MODULUS`.
    pub fn mulmod(&self, other: &BiPoly) -> (r: BiPoly)
        ensures
            r.0 == gf_mul(self.0, other.0),
    {
        let wide: u32 = pmul_exec(self.0 as u32, other.0 as u32);
        proof {
            lemma_wide_product_of_bytes(self.0, other.0);
            lemma_pmod_fits_byte(wide);
        }
        let qr = pdivmod(wide, MODULUS as u32);
        BiPoly(qr.1 as u8)
    }

    /// The carryless product with a 16-bit polynomial, truncated to the
    /// 16 bits of the scratch type.
    pub fn mul16(&self, other: &BiPoly16) -> (r: BiPoly16)
        ensures
            r.0 as u32 == pmul(self.0 as u32, other.0 as u32) & 0xFFFFu32,
    {
        let wide: u32 = pmul_exec(self.0 as u32, other.0 as u32);
        let low: u32 = wide & 0xFFFF;
        proof {
            assert((wide & 0xFFFFu32) < 0x10000 && (((wide & 0xFFFFu32) as u16) as u32) == (wide
                & 0xFFFFu32)) by (bit_vector);
        }
        BiPoly16(low as u16)
    }

    /// Quotient and remainder of division by another field element.
    /// Mirrors `poly_long_division`, which cannot fail on a nonzero
    /// divisor: an 8-bit remainder always fits.
    pub fn div(&self, other: BiPoly) -> (qr: (BiPoly, BiPoly))
        requires
            other.0 != 0,
        ensures
            qr.0.0 as u32 == pquot(self.0 as u32, other.0 as u32),
            qr.1.0 as u32 == pmod(self.0 as u32, other.0 as u32),
    {
        proof {
            if self.0 == 0 {
                lemma_pdeg_ge_neg1(other.0 as u32);
                lemma_pmod_small(0, other.0 as u32);
            }
        }
        poly_long_division(*self, other).unwrap()
    }

    /// Quotient and remainder of division by a nonzero 16-bit polynomial.
    /// The remainder fits a byte because this element already does.
    pub fn div16(&self, other: BiPoly16) -> (qr: (BiPoly16, BiPoly))
        requires
            other.0 != 0,
        ensures
            qr.0.0 as u32 == pquot(self.0 as u32, other.0 as u32),
            qr.1.0 as u32 == pmod(self.0 as u32, other.0 as u32),
    {
        proof {
            let n32 = self.0 as u32;
            let d32 = other.0 as u32;
            if self.0 != 0 {
                lemma_small_dividend_small_remainder(n32, d32);
            } else {
                lemma_pdeg_ge_neg1(d32);
                lemma_pmod_small(0, d32);
            }
        }
        poly_long_division16(BiPoly16(self.0 as u16), &other).unwrap()
    }

    /// The degree of the polynomial, or `None` for the zero polynomial.
    pub fn degree(&self) -> (r: Option<u8>)
        ensures
            self.0 == 0 ==> r is None,
            self.0 != 0 ==> r == Some(pdeg(self.0 as u32) as u8),
    {
        if self.0 == 0 {
            None
        } else {
            Some(poly_deg(self.0 as u32))
        }
    }
}

impl BiPoly16 {
    /// The sixteen coefficients of the polynomial, lowest degree first.
    #[verifier::rlimit(50)]
    pub fn to_array(&self) -> (r: [bool; 16])
        ensures
            r[0] == ((self.0 >> 0u16) & 1 == 1),
            r[1] == ((self.0 >> 1u16) & 1 == 1),
            r[2] == ((self.0 >> 2u16) & 1 == 1),
            r[3] == ((self.0 >> 3u16) & 1 == 1),
            r[4] == ((self.0 >> 4u16) & 1 == 1),
            r[5] == ((self.0 >> 5u16) & 1 == 1),
            r[6] == ((self.0 >> 6u16) & 1 == 1),
            r[7] == ((self.0 >> 7u16) & 1 == 1),
            r[8] == ((self.0 >> 8u16) & 1 == 1),
            r[9] == ((self.0 >> 9u16) & 1 == 1),
            r[10] == ((self.0 >> 10u16) & 1 == 1),
            r[11] == ((self.0 >> 11u16) & 1 == 1),
            r[12] == ((self.0 >> 12u16) & 1 == 1),
            r[13] == ((self.0 >> 13u16) & 1 == 1),
            r[14] == ((self.0 >> 14u16) & 1 == 1),
            r[15] == ((self.0 >> 15u16) & 1 == 1),
    {
        [
            (self.0 >> 0u16) & 1 == 1,
            (self.0 >> 1u16) & 1 == 1,
            (self.0 >> 2u16) & 1 == 1,
            (self.0 >> 3u16) & 1 == 1,
            (self.0 >> 4u16) & 1 == 1,
            (self.0 >> 5u16) & 1 == 1,
            (self.0 >> 6u16) & 1 == 1,
            (self.0 >> 7u16) & 1 == 1,
            (self.0 >> 8u16) & 1 == 1,
            (self.0 >> 9u16) & 1 == 1,
            (self.0 >> 10u16) & 1 == 1,
            (self.0 >> 11u16) & 1 == 1,
            (self.0 >> 12u16) & 1 == 1,
            (self.0 >> 13u16) & 1 == 1,
            (self.0 >> 14u16) & 1 == 1,
            (self.0 >> 15u16) & 1 == 1,
        ]
    }

    /// The degree of the polynomial, or `None` for the zero polynomial.
    pub fn degree(&self) -> (r: Option<u8>)
        ensures
            self.0 == 0 ==> r is None,
            self.0 != 0 ==> r == Some(pdeg(self.0 as u32) as u8),
    {
        if self.0 == 0 {
            None
        } else {
            Some(poly_deg(self.0 as u32))
        }
    }

    /// The carryless product with a field element, truncated to 16 bits.
    pub fn mul(&self, other: &BiPoly) -> (r: BiPoly16)
        ensures
            r.0 as u32 == pmul(self.0 as u32, other.0 as u32) & 0xFFFFu32,
    {
        let wide: u32 = pmul_exec(self.0 as u32, other.0 as u32);
        let low: u32 = wide & 0xFFFF;
        proof {
            assert((wide & 0xFFFFu32) < 0x10000 && (((wide & 0xFFFFu32) as u16) as u32) == (wide
                & 0xFFFFu32)) by (bit_vector);
        }
        BiPoly16(low as u16)
    }

    /// The carryless product of two 16-bit polynomials, truncated to 16
    /// bits.
    pub fn mul16(&self, other: &BiPoly16) -> (r: BiPoly16)
        ensures
            r.0 as u32 == pmul(self.0 as u32, other.0 as u32) & 0xFFFFu32,
    {
        let wide: u32 = pmul_exec(self.0 as u32, other.0 as u32);
        let low: u32 = wide & 0xFFFF;
        proof {
            assert((wide & 0xFFFFu32) < 0x10000 && (((wide & 0xFFFFu32) as u16) as u32) == (wide
                & 0xFFFFu32)) by (bit_vector);
        }
        BiPoly16(low as u16)
    }

    /// Addition of a field element, widened to 16 bits.
    pub fn add(&self, other: &BiPoly) -> (r: BiPoly16)
        ensures
            r.0 == self.0 ^ (other.0 as u16),
    {
        BiPoly16(self.0 ^ (other.0 as u16))
    }

    /// Addition: coefficient-wise xor.
    pub fn add16(&self, other: &BiPoly16) -> (r: BiPoly16)
        ensures
            r.0 == self.0 ^ other.0,
    {
        BiPoly16(self.0 ^ other.0)
    }

    /// Subtraction equals addition in characteristic two.
    pub fn sub(&self, other: &BiPoly) -> (r: BiPoly16)
        ensures
            r.0 == self.0 ^ (other.0 as u16),
    {
        BiPoly16(self.0 ^ (other.0 as u16))
    }

    /// Subtraction equals addition in characteristic two.
    pub fn sub16(&self, other: &BiPoly16) -> (r: BiPoly16)
        ensures
            r.0 == self.0 ^ other.0,
    {
        BiPoly16(self.0 ^ other.0)
    }

    /// Quotient and remainder of division by a nonzero 16-bit polynomial.
    /// The remainder must be known to fit a byte; `poly_long_division16`
    /// reports the overflow instead of demanding that.
    pub fn div16(&self, other: &BiPoly16) -> (qr: (BiPoly16, BiPoly))
        requires
            other.0 != 0,
            pmod(self.0 as u32, other.0 as u32) < 256,
        ensures
            qr.0.0 as u32 == pquot(self.0 as u32, other.0 as u32),
            qr.1.0 as u32 == pmod(self.0 as u32, other.0 as u32),
    {
        proof {
            if self.0 == 0 {
                lemma_pdeg_ge_neg1(other.0 as u32);
                lemma_pmod_small(0, other.0 as u32);
            }
        }
        poly_long_division16(*self, other).unwrap()
    }
}

/// A dividend that fits a byte leaves a remainder that fits a byte.
proof fn lemma_small_dividend_small_remainder(n32: u32, d32: u32)
    requires
        n32 != 0,
        d32 != 0,
        n32 < 256,
    ensures
        pmod(n32, d32) < 256,
{
    lemma2_to64();
    lemma_pdeg_lt(n32, 8);
    if pdeg(n32) < pdeg(d32) {
        lemma_pmod_small(n32, d32);
    } else {
        lemma_pmod_deg(n32, d32);
        lemma_pdeg_ge_neg1(d32);
        lemma_pdeg_lt_inv(pmod(n32, d32), 8);
    }
}

/// The carryless product of two bytes fits the 16-bit scratch width.
proof fn lemma_wide_product_of_bytes(a: u8, b: u8)
    ensures
        pmul(a as u32, b as u32) < 0x10000,
{
    lemma2_to64();
    if a == 0 || b == 0 {
        lemma_pmul_zero(a as u32, b as u32);
    } else {
        lemma_pdeg_lt(a as u32, 8);
        lemma_pdeg_lt(b as u32, 8);
        lemma_pmul_deg(a as u32, b as u32);
        lemma_pdeg_lt_inv(pmul(a as u32, b as u32), 16);
    }
}

/// Long division of one field element by another. Division by the zero
/// polynomial fails, whatever the dividend. The remainder of an 8-bit
/// division always fits 8 bits, so `ReminderBiggerThanModulo` never
/// arises here.
pub fn poly_long_division(n: BiPoly, d: BiPoly) -> (res: Result<
    (BiPoly, BiPoly),
    PolyLongDivision,
>)
    ensures
        d.0 == 0 ==> res == Err::<(BiPoly, BiPoly), PolyLongDivision>(
            PolyLongDivision::AttemptDivisionByZeroError,
        ),
        n.0 == 0 && d.0 != 0 ==> res == Ok::<(BiPoly, BiPoly), PolyLongDivision>(
            (BiPoly(0), BiPoly(0)),
        ),
        d.0 != 0 ==> (res matches Ok(qr) && qr.0.0 as u32 == pquot(n.0 as u32, d.0 as u32)
            && qr.1.0 as u32 == pmod(n.0 as u32, d.0 as u32)),
{
    if d.0 == 0 {
        return Err(PolyLongDivision::AttemptDivisionByZeroError);
    }
    let qr = pdivmod(n.0 as u32, d.0 as u32);
    proof {
        if n.0 == 0 {
            lemma_pdeg_ge_neg1(d.0 as u32);
            lemma_pmod_small(0, d.0 as u32);
        } else {
            lemma_small_dividend_small_remainder(n.0 as u32, d.0 as u32);
            lemma_quot_of_byte_fits(n.0 as u32, d.0 as u32);
        }
    }
    Ok((BiPoly(qr.0 as u8), BiPoly(qr.1 as u8)))
}

/// The quotient of a division of bytes fits a byte.
proof fn lemma_quot_of_byte_fits(n32: u32, d32: u32)
    requires
        n32 != 0,
        d32 != 0,
        n32 < 256,
    ensures
        pquot(n32, d32) < 256,
{
    lemma2_to64();
    lemma_pdeg_lt(n32, 8);
    lemma_pdeg_ge_neg1(n32);
    lemma_pdeg_ge_neg1(d32);
    lemma_pmod_decomp(n32, d32);
    lemma_pdeg_lt_inv(pquot(n32, d32), 8);
}

/// Long division of 16-bit polynomials. Division by the zero polynomial
/// fails, whatever the dividend. The remainder is returned as a field
/// element; if it does not fit 8 bits the division reports
/// `ReminderBiggerThanModulo` instead.
pub fn poly_long_division16(n: BiPoly16, d: &BiPoly16) -> (res: Result<
    (BiPoly16, BiPoly),
    PolyLongDivision,
>)
    ensures
        d.0 == 0 ==> res == Err::<(BiPoly16, BiPoly), PolyLongDivision>(
            PolyLongDivision::AttemptDivisionByZeroError,
        ),
        n.0 == 0 && d.0 != 0 ==> res == Ok::<(BiPoly16, BiPoly), PolyLongDivision>(
            (BiPoly16(0), BiPoly(0)),
        ),
        d.0 != 0 && pmod(n.0 as u32, d.0 as u32) < 256 ==> (res matches Ok(qr) && qr.0.0 as u32
            == pquot(n.0 as u32, d.0 as u32) && qr.1.0 as u32 == pmod(n.0 as u32, d.0 as u32)),
        d.0 != 0 && pmod(n.0 as u32, d.0 as u32) >= 256 ==> res == Err::<
            (BiPoly16, BiPoly),
            PolyLongDivision,
        >(PolyLongDivision::ReminderBiggerThanModulo),
{
    if d.0 == 0 {
        return Err(PolyLongDivision::AttemptDivisionByZeroError);
    }
    let qr = pdivmod(n.0 as u32, d.0 as u32);
    proof {
        if n.0 == 0 {
            lemma_pdeg_ge_neg1(d.0 as u32);
            lemma_pmod_small(0, d.0 as u32);
        }
    }
    if qr.1 > 255 {
        return Err(PolyLongDivision::ReminderBiggerThanModulo);
    }
    proof {
        lemma_pdeg_ge_neg1(n.0 as u32);
        lemma_pdeg_ge_neg1(d.0 as u32);
        lemma_pmod_decomp(n.0 as u32, d.0 as u32);
        lemma2_to64();
        lemma_pdeg_lt(n.0 as u32, 16);
        lemma_pdeg_lt_inv(pquot(n.0 as u32, d.0 as u32), 16);
    }
    Ok((BiPoly16(qr.0 as u16), BiPoly(qr.1 as u8)))
}

/// One step of the extended-Euclidean algorithm preserves its invariants:
/// the remainders' degrees keep falling, the Bezout coefficients keep
/// certifying `coefficient * a = remainder (mod MODULUS)`, and every value
/// stays within the 16-bit scratch width.
proof fn lemma_euclid_step(aa: u32, old_r: u32, rem: u32, old_s: u32, s: u32)
    requires
        0 < aa < 256,
        old_r != 0,
        rem != 0,
        pdeg(rem) < pdeg(old_r),
        pdeg(old_r) <= 8,
        s != 0,
        pdeg(s) + pdeg(old_r) == 8,
        pdeg(old_s) < pdeg(s),
        pmod(pmul(old_s, aa) ^ old_r, MODULUS as u32) == 0,
        pmod(pmul(s, aa) ^ rem, MODULUS as u32) == 0,
    ensures
        pquot(old_r, rem) < 0x10000,
        pmul(pquot(old_r, rem), s) < 0x10000,
        pdeg(pmod(old_r, rem)) < pdeg(rem),
        (old_s ^ pmul(pquot(old_r, rem), s)) != 0,
        pdeg(old_s ^ pmul(pquot(old_r, rem), s)) + pdeg(rem) == 8,
        pdeg(s) < pdeg(old_s ^ pmul(pquot(old_r, rem), s)),
        pmod(pmul(old_s ^ pmul(pquot(old_r, rem), s), aa) ^ pmod(old_r, rem), MODULUS as u32)
            == 0,
        (old_s ^ pmul(pquot(old_r, rem), s)) < 0x10000,
{
    let mm = MODULUS as u32;
    lemma_modulus_deg();
    lemma2_to64();
    lemma_pdeg_lt(aa, 8);
    lemma_pdeg_bounds(aa);
    lemma_pdeg_bounds(old_r);
    lemma_pdeg_bounds(rem);
    lemma_pdeg_bounds(s);
    lemma_pdeg_ge_neg1(old_s);
    let q = pquot(old_r, rem);
    let r2 = pmod(old_r, rem);
    lemma_pquot_nonzero(old_r, rem);
    lemma_pdeg_lt_inv(q, 16);
    lemma_pmod_deg(old_r, rem);
    lemma_pmul_deg(q, s);
    lemma_pdeg_lt_inv(pmul(q, s), 16);
    let s2 = old_s ^ pmul(q, s);
    lemma_pdeg_xor_lower(pmul(q, s), old_s);
    lemma_xor_comm(pmul(q, s), old_s);
    lemma_pdeg_lt_inv(s2, 16);
    // The Bezout certificate carries over: with u and v the current
    // certificates, the next one is u ^ q * v, still a multiple of the
    // modulus.
    let u = pmul(old_s, aa) ^ old_r;
    let v = pmul(s, aa) ^ rem;
    lemma_pmul_dist_left(old_s, pmul(q, s), aa);
    lemma_pmul_assoc(q, s, aa);
    lemma_pmod_decomp(old_r, rem);
    let pa = pmul(old_s, aa);
    let pb = pmul(q, pmul(s, aa));
    let pd = pmul(q, rem);
    assert(r2 == old_r ^ pd) by (bit_vector)
        requires
            pd ^ r2 == old_r,
    ;
    assert((pa ^ pb) ^ (old_r ^ pd) == (pa ^ old_r) ^ (pb ^ pd)) by (bit_vector);
    lemma_pmul_dist_right(q, pmul(s, aa), rem);
    lemma_pmod_linear(u, pmul(q, v), mm);
    lemma_pmod_decomp(v, mm);
    let qv = pquot(v, mm);
    lemma_xor_unit(pmul(qv, mm));
    if qv == 0 {
        lemma_pmul_zero(qv, mm);
        lemma_pmul_zero(q, q);
        lemma_pmod_small(0, mm);
        lemma_pdeg_ge_neg1(0);
    } else {
        lemma_pmul_assoc(q, qv, mm);
        lemma_pmul_deg(s, aa);
        lemma_pdeg_xor_le(pmul(s, aa), rem);
        lemma_pmul_deg(q, qv);
        lemma_pmod_of_multiple(pmul(q, qv), mm);
    }
    lemma_xor_unit(0);
}

/// At the end of the algorithm, a unit remainder turns the Bezout
/// certificate into a modular inverse.
proof fn lemma_euclid_exit(aa: u32, old_s: u32)
    requires
        pmod(pmul(old_s, aa) ^ 1, MODULUS as u32) == 0,
    ensures
        pmod(pmul(old_s, aa), MODULUS as u32) == 1,
{
    let mm = MODULUS as u32;
    lemma_modulus_deg();
    lemma_pmod_linear(pmul(old_s, aa), 1, mm);
    lemma_byte_reduced(1);
    let p = pmod(pmul(old_s, aa), mm);
    assert(p == 1) by (bit_vector)
        requires
            p ^ 1u32 == 0u32,
    ;
}

/// The multiplicative inverse in GF(2^8), by the extended-Euclidean
/// algorithm on the element and the modulus. By convention the zero
/// element maps to zero (it has no true inverse). `None` is returned
/// exactly when the greatest common divisor with the modulus is not one,
/// which an irreducible modulus never produces.
pub fn poly_mod_inv(a: BiPoly) -> (res: Option<BiPoly>)
    ensures
        a.0 == 0 ==> res == Some(BiPoly(0)),
        a.0 != 0 ==> ((res is Some) <==> pgcd(a.0 as u32, MODULUS as u32) == 1),
        a.0 != 0 ==> (res matches Some(b) ==> gf_mul(a.0, b.0) == 1),
{
    if a.0 == 0 {
        return Some(BiPoly(0));
    }
    let aa: u32 = a.0 as u32;
    let mut old_r: u32 = aa;
    let mut rem: u32 = MODULUS as u32;
    let mut old_s: u32 = 1;
    let mut s: u32 = 0;
    proof {
        lemma_modulus_deg();
        lemma2_to64();
        lemma_pdeg_lt(aa, 8);
        lemma_pdeg_bounds(aa);
    }
    while rem != 0
        invariant
            0 < aa < 256,
            pdeg(aa) <= 7,
            old_r != 0,
            old_r < 0x10000,
            rem < 0x10000,
            old_s < 0x10000,
            s < 0x10000,
            pgcd(old_r, rem) == pgcd(aa, MODULUS as u32),
            (old_r == aa && rem == MODULUS as u32 && old_s == 1 && s == 0) || (pdeg(rem) < pdeg(
                old_r,
            ) && pdeg(old_r) <= 8 && s != 0 && pdeg(s) + pdeg(old_r) == 8 && pdeg(old_s) < pdeg(s)
                && pmod(pmul(old_s, aa) ^ old_r, MODULUS as u32) == 0 && pmod(
                pmul(s, aa) ^ rem,
                MODULUS as u32,
            ) == 0),
        decreases rem,
    {
        let qr = pdivmod(old_r, rem);
        let q: u32 = qr.0;
        let r2: u32 = qr.1;
        proof {
            lemma_modulus_deg();
            lemma_pmod_lt(old_r, rem);
            if old_r == aa && rem == MODULUS as u32 && old_s == 1 && s == 0 {
                lemma_pmod_small(aa, MODULUS as u32);
                lemma_pmul_zero(0, s);
                lemma_pmul_one(aa);
                lemma_pmul_zero(0, aa);
                lemma_xor_unit(aa);
                lemma_pmod_self(MODULUS as u32);
                lemma_xor_unit(MODULUS as u32);
                lemma_pmod_small(0, MODULUS as u32);
                lemma_pdeg_ge_neg1(0);
                lemma_xor_unit(1);
                assert(pdeg(1u32) == 0) by {
                    reveal_with_fuel(pdeg, 2);
                }
            } else {
                lemma_euclid_step(aa, old_r, rem, old_s, s);
            }
        }
        let ps: u32 = pmul_exec(q, s);
        let s2: u32 = old_s ^ ps;
        old_r = rem;
        rem = r2;
        old_s = s;
        s = s2;
    }
    if old_r > 1 {
        return None;
    }
    proof {
        lemma_euclid_exit(aa, old_s);
        lemma_pmul_comm(aa, old_s);
        assert(pdeg(1u32) == 0) by {
            reveal_with_fuel(pdeg, 2);
        }
        lemma_pdeg_lt_inv(old_s, 8);
        lemma2_to64();
    }
    Some(BiPoly(old_s as u8))
}

} // verus!
