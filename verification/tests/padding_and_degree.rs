//! Padding layout and polynomial degree vectors.

use whirlpool::bipoly::{BiPoly, BiPoly16};
use whirlpool::engine::add_padding;

#[test]
fn core_test_padding() {
    {
        let mut input = vec![0, 1, 2, 3, 4, 5];
        add_padding(&mut input);
        assert_eq!(input.len(), 16);
        assert_eq!(input, vec![0, 1, 2, 3, 4, 5, 0, 0, 0, 0, 0, 0, 0, 0, 0, 6]);
    }
    {
        let mut input = vec![0, 1, 2, 3, 4, 5, 6];
        add_padding(&mut input);
        assert_eq!(input.len(), 16);
        assert_eq!(input, vec![0, 1, 2, 3, 4, 5, 6, 0, 0, 0, 0, 0, 0, 0, 0, 7]);
    }
    {
        let mut input = vec![0, 1, 2, 3, 4, 5, 6, 7, 8, 9, 10, 11, 12, 13];
        add_padding(&mut input);
        assert_eq!(input.len(), 16);
        assert_eq!(
            input,
            vec![0, 1, 2, 3, 4, 5, 6, 7, 8, 9, 10, 11, 12, 13, 0, 14]
        );
    }
    {
        let mut input = vec![0, 1, 2, 3, 4, 5, 6, 7, 8, 9, 10, 11, 12, 13, 14, 15];
        add_padding(&mut input);
        assert_eq!(input.len(), 32);
        assert_eq!(
            input,
            vec![
                0, 1, 2, 3, 4, 5, 6, 7, 8, 9, 10, 11, 12, 13, 14, 15, 0, 0, 0, 0, 0, 0, 0, 0, 0,
                0, 0, 0, 0, 0, 0, 0x10
            ]
        );
    }
}

#[test]
fn whirlpool_test_padding() {
    {
        let mut input = vec![0, 1, 2, 3, 4, 5];
        add_padding(&mut input);
        assert_eq!(input.len(), 16);
        assert_eq!(input, vec![0, 1, 2, 3, 4, 5, 0, 0, 0, 0, 0, 0, 0, 0, 0, 6]);
    }
    {
        let mut input = vec![0, 1, 2, 3, 4, 5, 6];
        add_padding(&mut input);
        assert_eq!(input.len(), 16);
        assert_eq!(input, vec![0, 1, 2, 3, 4, 5, 6, 0, 0, 0, 0, 0, 0, 0, 0, 7]);
    }
    {
        let mut input = vec![0, 1, 2, 3, 4, 5, 6, 7, 8, 9, 10, 11, 12, 13];
        add_padding(&mut input);
        assert_eq!(input.len(), 16);
        assert_eq!(
            input,
            vec![0, 1, 2, 3, 4, 5, 6, 7, 8, 9, 10, 11, 12, 13, 0, 14]
        );
    }
    {
        let mut input = vec![0, 1, 2, 3, 4, 5, 6, 7, 8, 9, 10, 11, 12, 13, 14, 15];
        add_padding(&mut input);
        assert_eq!(input.len(), 32);
        assert_eq!(
            input,
            vec![
                0, 1, 2, 3, 4, 5, 6, 7, 8, 9, 10, 11, 12, 13, 14, 15, 0, 0, 0, 0, 0, 0, 0, 0, 0,
                0, 0, 0, 0, 0, 0, 0x10
            ]
        );
    }
}

#[test]
fn long_padding_encodes_length_in_two_bytes() {
    // Above 255 bytes the length is written big-endian into the last two
    // bytes.
    let mut input = vec![7u8; 300];
    add_padding(&mut input);
    assert_eq!(input.len(), 304);
    assert_eq!(input[300], 0);
    assert_eq!(input[301], 0);
    assert_eq!(input[302], 0x01);
    assert_eq!(input[303], 0x2C);
}

#[test]
fn length_above_16_bits_truncates() {
    // A 70000-byte message records its length modulo 65536 (0x1170), a
    // known limitation kept on purpose.
    let mut input = vec![0u8; 70000];
    add_padding(&mut input);
    assert_eq!(input.len(), 70016);
    assert_eq!(input[70014], 0x11);
    assert_eq!(input[70015], 0x70);
}

#[test]
fn core_test_degree() {
    let m = BiPoly(0b00000001);
    assert_eq!(m.degree().unwrap(), 0);
    let m = BiPoly(0b00000011);
    assert_eq!(m.degree().unwrap(), 1);
    let m = BiPoly(0b11000011);
    assert_eq!(m.degree().unwrap(), 7);

    let a = BiPoly16(0b0000_0001_0000_0010);
    assert_eq!(a.degree().unwrap(), 8);

    let a = BiPoly16(0b1000_0001_0000_0010);
    assert_eq!(a.degree().unwrap(), 15);
}

#[test]
fn whirlpool_test_degree() {
    let m = BiPoly(0b00000001);
    assert_eq!(m.degree().unwrap(), 0);
    let m = BiPoly(0b00000011);
    assert_eq!(m.degree().unwrap(), 1);
    let m = BiPoly(0b11000011);
    assert_eq!(m.degree().unwrap(), 7);

    let a = BiPoly16(0b0000_0001_0000_0010);
    assert_eq!(a.degree().unwrap(), 8);

    let a = BiPoly16(0b1000_0001_0000_0010);
    assert_eq!(a.degree().unwrap(), 15);
}

#[test]
fn degree_of_zero_is_undefined() {
    assert!(BiPoly(0).degree().is_none());
    assert!(BiPoly16(0).degree().is_none());
}
