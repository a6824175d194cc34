//! Digest vectors for the compression function and the full hash.

use std::convert::TryInto;

use whirlpool::engine::{add_padding, hash, to_array};
use whirlpool::matrix::Matrix;

fn fold_blocks(input: &[u8]) -> [u8; 16] {
    let mut acc = Matrix::zeros();
    for element in input.chunks(16) {
        acc = whirlpool::engine::whirlpool(
            acc,
            element.try_into().expect("Slice with incorrect size"),
        );
    }
    to_array(&acc)
}

#[test]
fn core_test_whirpool() {
    {
        let input = [
            0x00, 0x01, 0x02, 0x03, 0x04, 0x05, 0x06, 0x07, 0x08, 0x09, 0x0A, 0x0B, 0x0C, 0x0D,
            0x0E, 0x0F,
        ];
        let hash = whirlpool::engine::whirlpool(Matrix::zeros(), input);
        let expected = [
            0xEA, 0xBC, 0x8C, 0x30, 0x17, 0xDC, 0x2D, 0x09, 0x60, 0x9E, 0x2A, 0x27, 0x2B, 0x26,
            0x0B, 0xE1,
        ];
        assert_eq!(to_array(&hash), expected);
    }
    {
        let input = [0u8; 16];
        let hash = whirlpool::engine::whirlpool(Matrix::zeros(), input);
        let expected = [
            0xF4, 0xE7, 0xC2, 0x07, 0x92, 0xAF, 0x80, 0x9B, 0x01, 0x84, 0xC6, 0x84, 0x7B, 0xAF,
            0xE8, 0x6A,
        ];
        assert_eq!(to_array(&hash), expected);
    }
    {
        let mut input = "AbCxYz".as_bytes().to_vec();
        add_padding(&mut input);
        let expected = [
            0x67, 0x2F, 0xAE, 0x13, 0xF4, 0x8D, 0xED, 0xA1, 0x99, 0x91, 0x31, 0x9E, 0x06, 0xFF,
            0xC7, 0x88,
        ];
        assert_eq!(fold_blocks(&input), expected);
    }
    {
        let mut input = "1234567890".as_bytes().to_vec();
        add_padding(&mut input);
        let expected = [
            0x8E, 0x65, 0x6F, 0xBC, 0xB4, 0xA3, 0xDF, 0xC4, 0xA1, 0x5F, 0x96, 0x90, 0xD2, 0xCC,
            0x12, 0x63,
        ];
        assert_eq!(fold_blocks(&input), expected);
    }
    {
        let mut input = "Ala ma kota, kot ma ale.".as_bytes().to_vec();
        add_padding(&mut input);
        let expected = [
            0x83, 0xA9, 0xFB, 0x7E, 0x22, 0x64, 0xAE, 0x75, 0x65, 0x36, 0xB5, 0x1A, 0xA5, 0xDD,
            0x4E, 0x51,
        ];
        assert_eq!(fold_blocks(&input), expected);
    }
    {
        let mut input = "Ty, ktory wchodzisz, zegnaj sie z nadzieja."
            .as_bytes()
            .to_vec();
        add_padding(&mut input);
        let expected = [
            0x2B, 0xE5, 0xCC, 0x98, 0xDC, 0xC9, 0x24, 0xC8, 0x66, 0xED, 0xCF, 0xF9, 0xD1, 0x1A,
            0x75, 0xFB,
        ];
        assert_eq!(fold_blocks(&input), expected);
    }
    {
        let mut input = "Litwo, Ojczyzno moja! ty jestes jak zdrowie;"
            .as_bytes()
            .to_vec();
        add_padding(&mut input);
        let expected = [
            0xCC, 0xE8, 0x5A, 0x43, 0x1C, 0x3C, 0x2D, 0x8F, 0xC1, 0x02, 0xE4, 0x99, 0x3D, 0xFB,
            0xD3, 0x33,
        ];
        assert_eq!(fold_blocks(&input), expected);
    }
    {
        let mut input = "a".repeat(48000).as_bytes().to_vec();
        add_padding(&mut input);
        let expected = [
            0x4A, 0x07, 0x19, 0x09, 0xC7, 0xA6, 0xBD, 0x41, 0x5B, 0xB8, 0xA2, 0x41, 0x87, 0xB3,
            0x61, 0xEB,
        ];
        assert_eq!(fold_blocks(&input), expected);
    }
    {
        let mut input = "a".repeat(48479).as_bytes().to_vec();
        add_padding(&mut input);
        let expected = [
            0x7C, 0x93, 0x0B, 0x4F, 0xEE, 0x8D, 0x0A, 0x5F, 0x12, 0xE3, 0x81, 0x74, 0x74, 0x6B,
            0x28, 0xBE,
        ];
        assert_eq!(fold_blocks(&input), expected);
    }
    {
        let mut input = "a".repeat(48958).as_bytes().to_vec();
        add_padding(&mut input);
        let expected = [
            0x4D, 0xB0, 0x06, 0x4A, 0x8A, 0xE7, 0xE7, 0x8D, 0xDC, 0x0C, 0xC4, 0xD9, 0xD6, 0x91,
            0xEE, 0xAE,
        ];
        assert_eq!(fold_blocks(&input), expected);
    }
}

#[test]
fn whirlpool_test_whirpool() {
    {
        let input = [
            0x00, 0x01, 0x02, 0x03, 0x04, 0x05, 0x06, 0x07, 0x08, 0x09, 0x0A, 0x0B, 0x0C, 0x0D,
            0x0E, 0x0F,
        ];
        let hash = whirlpool::engine::whirlpool(Matrix::zeros(), input);
        let expected = [
            0xEA, 0xBC, 0x8C, 0x30, 0x17, 0xDC, 0x2D, 0x09, 0x60, 0x9E, 0x2A, 0x27, 0x2B, 0x26,
            0x0B, 0xE1,
        ];
        assert_eq!(to_array(&hash), expected);
    }
    {
        let input = [0u8; 16];
        let hash = whirlpool::engine::whirlpool(Matrix::zeros(), input);
        let expected = [
            0xF4, 0xE7, 0xC2, 0x07, 0x92, 0xAF, 0x80, 0x9B, 0x01, 0x84, 0xC6, 0x84, 0x7B, 0xAF,
            0xE8, 0x6A,
        ];
        assert_eq!(to_array(&hash), expected);
    }
    {
        let mut input = "AbCxYz".as_bytes().to_vec();
        add_padding(&mut input);
        let expected = [
            0x67, 0x2F, 0xAE, 0x13, 0xF4, 0x8D, 0xED, 0xA1, 0x99, 0x91, 0x31, 0x9E, 0x06, 0xFF,
            0xC7, 0x88,
        ];
        assert_eq!(fold_blocks(&input), expected);
    }
    {
        let mut input = "1234567890".as_bytes().to_vec();
        add_padding(&mut input);
        let expected = [
            0x8E, 0x65, 0x6F, 0xBC, 0xB4, 0xA3, 0xDF, 0xC4, 0xA1, 0x5F, 0x96, 0x90, 0xD2, 0xCC,
            0x12, 0x63,
        ];
        assert_eq!(fold_blocks(&input), expected);
    }
    {
        let mut input = "Ala ma kota, kot ma ale.".as_bytes().to_vec();
        add_padding(&mut input);
        let expected = [
            0x83, 0xA9, 0xFB, 0x7E, 0x22, 0x64, 0xAE, 0x75, 0x65, 0x36, 0xB5, 0x1A, 0xA5, 0xDD,
            0x4E, 0x51,
        ];
        assert_eq!(fold_blocks(&input), expected);
    }
    {
        let mut input = "Ty, ktory wchodzisz, zegnaj sie z nadzieja."
            .as_bytes()
            .to_vec();
        add_padding(&mut input);
        let expected = [
            0x2B, 0xE5, 0xCC, 0x98, 0xDC, 0xC9, 0x24, 0xC8, 0x66, 0xED, 0xCF, 0xF9, 0xD1, 0x1A,
            0x75, 0xFB,
        ];
        assert_eq!(fold_blocks(&input), expected);
    }
    {
        let mut input = "Litwo, Ojczyzno moja! ty jestes jak zdrowie;"
            .as_bytes()
            .to_vec();
        add_padding(&mut input);
        let expected = [
            0xCC, 0xE8, 0x5A, 0x43, 0x1C, 0x3C, 0x2D, 0x8F, 0xC1, 0x02, 0xE4, 0x99, 0x3D, 0xFB,
            0xD3, 0x33,
        ];
        assert_eq!(fold_blocks(&input), expected);
    }
    {
        let mut input = "a".repeat(48000).as_bytes().to_vec();
        add_padding(&mut input);
        let expected = [
            0x4A, 0x07, 0x19, 0x09, 0xC7, 0xA6, 0xBD, 0x41, 0x5B, 0xB8, 0xA2, 0x41, 0x87, 0xB3,
            0x61, 0xEB,
        ];
        assert_eq!(fold_blocks(&input), expected);
    }
    {
        let mut input = "a".repeat(48479).as_bytes().to_vec();
        add_padding(&mut input);
        let expected = [
            0x7C, 0x93, 0x0B, 0x4F, 0xEE, 0x8D, 0x0A, 0x5F, 0x12, 0xE3, 0x81, 0x74, 0x74, 0x6B,
            0x28, 0xBE,
        ];
        assert_eq!(fold_blocks(&input), expected);
    }
    {
        let mut input = "a".repeat(48958).as_bytes().to_vec();
        add_padding(&mut input);
        let expected = [
            0x4D, 0xB0, 0x06, 0x4A, 0x8A, 0xE7, 0xE7, 0x8D, 0xDC, 0x0C, 0xC4, 0xD9, 0xD6, 0x91,
            0xEE, 0xAE,
        ];
        assert_eq!(fold_blocks(&input), expected);
    }
}

#[test]
fn hash_entry_point_matches_fold() {
    let digest = hash("AbCxYz".as_bytes().to_vec());
    let expected = [
        0x67, 0x2F, 0xAE, 0x13, 0xF4, 0x8D, 0xED, 0xA1, 0x99, 0x91, 0x31, 0x9E, 0x06, 0xFF, 0xC7,
        0x88,
    ];
    assert_eq!(digest, expected);

    let digest = hash("1234567890".as_bytes().to_vec());
    let expected = [
        0x8E, 0x65, 0x6F, 0xBC, 0xB4, 0xA3, 0xDF, 0xC4, 0xA1, 0x5F, 0x96, 0x90, 0xD2, 0xCC, 0x12,
        0x63,
    ];
    assert_eq!(digest, expected);
}

#[test]
fn empty_input_hashes_like_one_zero_block() {
    // The empty message pads to a single all-zero block.
    let expected = [
        0xF4, 0xE7, 0xC2, 0x07, 0x92, 0xAF, 0x80, 0x9B, 0x01, 0x84, 0xC6, 0x84, 0x7B, 0xAF, 0xE8,
        0x6A,
    ];
    assert_eq!(hash(Vec::new()), expected);
}

#[test]
fn hash_is_deterministic() {
    // The same bytes hash to the same digest, however the buffer was built.
    let first = hash("determinism check".as_bytes().to_vec());
    let second = hash("determinism check".as_bytes().to_vec());
    assert_eq!(first, second);

    let mut concatenated = "determinism".as_bytes().to_vec();
    concatenated.extend_from_slice(" check".as_bytes());
    assert_eq!(hash(concatenated), first);

    let repeated = hash("abab".as_bytes().to_vec());
    assert_eq!(hash("ab".repeat(2).as_bytes().to_vec()), repeated);
}

#[test]
fn multi_block_inputs_depend_on_every_byte() {
    // More than 14 bytes forces a second padded block; flipping an early
    // byte must still change the digest.
    let base: Vec<u8> = (0u8..20u8).collect();
    let digest = hash(base.clone());
    for i in 0..base.len() {
        let mut changed = base.clone();
        changed[i] ^= 0x01;
        assert_ne!(hash(changed), digest);
    }
}
