//! Field element operations: coefficient arrays, long division, modular
//! inversion, the field laws, and the substitution-box derivation.

use whirlpool::bipoly::{
    poly_long_division, poly_long_division16, poly_mod_inv, BiPoly, BiPoly16, PolyLongDivision,
};
use whirlpool::sbox::s;

#[test]
fn test_to_array() {
    let m = BiPoly(0b00000011);
    assert_eq!(
        m.to_array(),
        [true, true, false, false, false, false, false, false]
    );

    let a = BiPoly16(0b0000_0001_0000_0010);
    assert_eq!(
        a.to_array(),
        [
            false, true, false, false, false, false, false, false, true, false, false, false,
            false, false, false, false
        ]
    );
}

#[test]
fn test_poly_long_division() {
    {
        let a = BiPoly(0b0000_0110);
        let m = BiPoly(0b0000_0011);
        let (quot, rem) = poly_long_division(a, m).unwrap();
        assert_eq!(quot.0, BiPoly(0b0000_0010).0);
        assert_eq!(rem.0, BiPoly(0b0000_0000).0);
    }
    {
        let a = BiPoly(0b0000_0111);
        let m = BiPoly(0b0000_0011);
        let (quot, rem) = poly_long_division(a, m).unwrap();
        assert_eq!(quot.0, BiPoly(0b0000_0010).0);
        assert_eq!(rem.0, BiPoly(0b0000_0001).0);
    }
    {
        let a = BiPoly(0b1100_0011);
        let m = BiPoly(0b0001_1001);
        let (quot, rem) = poly_long_division(a, m).unwrap();
        assert_eq!(quot.0, BiPoly(0b0000_1000).0);
        assert_eq!(rem.0, BiPoly(0b0000_1011).0);
    }
}

#[test]
fn test_poly_mod_inv() {
    // Each result is the true multiplicative inverse: the product with the
    // input reduces to one.
    let eca = poly_mod_inv(BiPoly(0b1011));
    assert!(eca.is_some());
    assert_eq!(eca.unwrap().0, 0b0101_0101);
    assert_eq!(BiPoly(0b1011).mulmod(&BiPoly(0b0101_0101)).0, 1);

    let eca = poly_mod_inv(BiPoly(0b0100));
    assert!(eca.is_some());
    assert_eq!(eca.unwrap().0, 0b1101_1111);
    assert_eq!(BiPoly(0b0100).mulmod(&BiPoly(0b1101_1111)).0, 1);
}

#[test]
fn inverse_of_zero_is_zero_by_convention() {
    assert_eq!(poly_mod_inv(BiPoly(0)), Some(BiPoly(0)));
}

#[test]
fn every_nonzero_element_has_an_inverse() {
    for a in 1..=255u8 {
        let inv = poly_mod_inv(BiPoly(a)).expect("irreducible modulus");
        assert_eq!(BiPoly(a).mulmod(&inv).0, 1);
    }
}

#[test]
fn addition_laws() {
    let samples = [0x00u8, 0x01, 0x53, 0xCA, 0xFF];
    for &a in &samples {
        for &b in &samples {
            assert_eq!(BiPoly(a).add(&BiPoly(b)).0, BiPoly(b).add(&BiPoly(a)).0);
            for &c in &samples {
                assert_eq!(
                    BiPoly(a).add(&BiPoly(b).add(&BiPoly(c))).0,
                    BiPoly(a).add(&BiPoly(b)).add(&BiPoly(c)).0
                );
            }
        }
        assert_eq!(BiPoly(a).add(&BiPoly(0)).0, a);
        assert_eq!(BiPoly(a).add(&BiPoly(a)).0, 0);
        assert_eq!(BiPoly(a).sub(&BiPoly(a)).0, 0);
    }
}

#[test]
fn multiplication_laws() {
    // An exact product: x * x^7 overflows degree 8 and reduces by the
    // modulus to x^5 + x^3 + x + 1.
    assert_eq!(BiPoly(0x02).mulmod(&BiPoly(0x80)).0, 0x2B);
    assert_eq!(BiPoly(0x57).mulmod(&BiPoly(0x83)).0, 0x90);
    assert_eq!(BiPoly(0x0E).mulmod(&BiPoly(0x0D)).0, 0x46);

    let samples = [0x00u8, 0x01, 0x02, 0x13, 0x2A, 0x57, 0xCA, 0xFF];
    for &a in &samples {
        for &b in &samples {
            assert_eq!(BiPoly(a).mulmod(&BiPoly(b)).0, BiPoly(b).mulmod(&BiPoly(a)).0);
            for &c in &samples {
                let left = BiPoly(a).mulmod(&BiPoly(b).add(&BiPoly(c)));
                let right = BiPoly(a).mulmod(&BiPoly(b)).add(&BiPoly(a).mulmod(&BiPoly(c)));
                assert_eq!(left.0, right.0);
            }
        }
        assert_eq!(BiPoly(a).mulmod(&BiPoly(0)).0, 0);
        assert_eq!(BiPoly(a).mulmod(&BiPoly(1)).0, a);
    }
}

#[test]
fn division_by_zero_fails() {
    assert_eq!(
        poly_long_division(BiPoly(5), BiPoly(0)),
        Err(PolyLongDivision::AttemptDivisionByZeroError)
    );
    assert_eq!(
        poly_long_division16(BiPoly16(5), &BiPoly16(0)),
        Err(PolyLongDivision::AttemptDivisionByZeroError)
    );
    // The zero dividend is no exception.
    assert_eq!(
        poly_long_division(BiPoly(0), BiPoly(0)),
        Err(PolyLongDivision::AttemptDivisionByZeroError)
    );
    assert_eq!(
        poly_long_division16(BiPoly16(0), &BiPoly16(0)),
        Err(PolyLongDivision::AttemptDivisionByZeroError)
    );
    // A zero dividend with a proper divisor divides to zero.
    assert_eq!(
        poly_long_division(BiPoly(0), BiPoly(3)),
        Ok((BiPoly(0), BiPoly(0)))
    );
}

#[test]
fn wide_remainder_is_reported() {
    // Dividing by a polynomial of degree nine can leave a remainder of
    // degree eight, which does not fit a field element.
    assert_eq!(
        poly_long_division16(BiPoly16(0xFFFF), &BiPoly16(0x200)),
        Err(PolyLongDivision::ReminderBiggerThanModulo)
    );
    // The same dividend with an 8-bit divisor reduces fine.
    assert!(poly_long_division16(BiPoly16(0xFFFF), &BiPoly16(0x1B)).is_ok());
}

#[test]
fn division_reconstructs_the_dividend() {
    let n = BiPoly16(0x1234);
    let d = BiPoly16(0x00B5);
    let (quot, rem) = poly_long_division16(n, &d).unwrap();
    let back = quot.mul16(&d).add(&rem);
    assert_eq!(back.0, n.0);
}

#[test]
fn sbox_is_affine_over_inversion() {
    // Every table entry equals 0xB6 * inverse(a) + 0x34, with the zero
    // element's "inverse" taken as zero.
    for a in 0..=255u8 {
        let inv = poly_mod_inv(BiPoly(a)).expect("irreducible modulus");
        let expected = BiPoly(0xB6).mulmod(&inv).add(&BiPoly(0x34));
        assert_eq!(s(BiPoly(a)).0, expected.0, "table entry {}", a);
    }
}
