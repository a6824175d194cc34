//! The substitution box: the fixed non-linear byte-to-byte lookup of the
//! round function.

use vstd::prelude::*;
use crate::bipoly::BiPoly;

verus! {

/// The 256-entry substitution table, laid out by the high and low nibble
/// of the input byte. Each entry is the affine transform
/// `0xB6 * inverse(a) + 0x34` of its index (with `inverse(0)` taken as 0
/// by convention), precomputed once.
pub const SBOX: [[u8; 16]; 16] = [
    [0x34, 0x82, 0x6F, 0xBF, 0x8C, 0x4D, 0xE4, 0x6B, 0x68, 0x01, 0x9D, 0xF1, 0x5C, 0x54, 0x8E, 0xFA],
    [0x1A, 0x97, 0xBB, 0x2F, 0xF5, 0x48, 0xC3, 0x14, 0x00, 0xC9, 0x04, 0x27, 0x69, 0x77, 0x53, 0x60],
    [0x23, 0xE1, 0xF0, 0x41, 0xE6, 0xC0, 0xAC, 0xEC, 0xC1, 0xE3, 0x0A, 0x86, 0xDA, 0xDC, 0x24, 0x89],
    [0x2E, 0xBC, 0xDF, 0x55, 0x2C, 0x3D, 0xA8, 0xCE, 0x8F, 0xCD, 0x80, 0xB9, 0x92, 0xA0, 0x1E, 0xF9],
    [0xAA, 0x96, 0xCB, 0x29, 0x56, 0x7D, 0x9B, 0xA1, 0x5D, 0x71, 0x4E, 0x63, 0x78, 0x4F, 0x58, 0xB4],
    [0xDB, 0xB6, 0xCA, 0x4C, 0x2B, 0xF2, 0x6D, 0x7F, 0x43, 0x62, 0x40, 0x36, 0x3C, 0x28, 0xFF, 0x33],
    [0x39, 0x07, 0x70, 0x9E, 0xD4, 0xFE, 0x91, 0x2A, 0x38, 0x7C, 0xA5, 0x45, 0x7A, 0xA9, 0x49, 0x81],
    [0xFC, 0x5F, 0xDD, 0xFD, 0x6E, 0x17, 0xE7, 0x6C, 0x67, 0x31, 0x7E, 0x79, 0x21, 0x5A, 0xC7, 0x90],
    [0x7B, 0xB1, 0x65, 0xCF, 0xDE, 0xB5, 0xAF, 0xF7, 0x05, 0xED, 0x85, 0x37, 0xF6, 0x0F, 0xEB, 0x26],
    [0x95, 0x5E, 0x83, 0xF4, 0x09, 0x73, 0x8A, 0xC6, 0x12, 0xE5, 0x9C, 0xB2, 0x02, 0x59, 0x74, 0xCC],
    [0xD6, 0xA4, 0x75, 0x25, 0x4B, 0x52, 0x08, 0x8B, 0xAE, 0x3E, 0x57, 0xE8, 0x8D, 0xE2, 0x84, 0x72],
    [0x9A, 0xBE, 0x1F, 0xC2, 0x0E, 0x5B, 0x35, 0xA6, 0x30, 0x98, 0x3A, 0x0C, 0xC4, 0x1B, 0xA2, 0x93],
    [0xA7, 0x20, 0xB8, 0xB3, 0x16, 0x3F, 0x61, 0xF8, 0x44, 0x47, 0x51, 0x6A, 0xF3, 0x0B, 0x3B, 0xEA],
    [0x32, 0xAD, 0x10, 0x42, 0xE9, 0x15, 0x99, 0x1D, 0x13, 0xBD, 0xEF, 0xEE, 0x9F, 0xE0, 0xFB, 0xBA],
    [0x50, 0xD0, 0x94, 0xD1, 0xD5, 0xD7, 0xC5, 0xD9, 0x19, 0x46, 0xB0, 0x06, 0xC8, 0xD3, 0x18, 0x64],
    [0x88, 0xD2, 0xA3, 0x4A, 0x11, 0x1C, 0x87, 0x22, 0xAB, 0x0D, 0x03, 0xB7, 0xD8, 0x2D, 0x66, 0x76],
];

/// What the substitution box holds for a byte.
pub open spec fn sbox_spec(b: u8) -> u8 {
    SBOX[(b >> 4u8) as int][(b & 0x0Fu8) as int]
}

/// Substitute one field element through the table.
pub fn s(a: BiPoly) -> (r: BiPoly)
    ensures
        r.0 == sbox_spec(a.0),
{
    let av: u8 = a.0;
    proof {
        assert((av >> 4u8) < 16 && (av & 0x0Fu8) < 16) by (bit_vector);
    }
    let row = (av >> 4u8) as usize;
    let col = (av & 0x0Fu8) as usize;
    BiPoly(SBOX[row][col])
}

} // verus!
