//! The hash engine: the 6-round substitute/shift/diffuse/add-constant
//! round function, the Miyaguchi-Preneel compression step, length padding,
//! and the block-chaining entry point `hash`.

use vstd::prelude::*;
use crate::bipoly::BiPoly;
use crate::matrix::{Matrix, mat_add, mat_mul, zero_cells, mul_matrices, add_matrices};
use crate::sbox::{s, sbox_spec};

verus! {

/// Bytes per message block.
pub const BLOCK_SIZE: usize = 16;

/// Bytes reserved for the encoded message length.
pub const LENGTH_SIZE: usize = 2;

/// The circulant diffusion matrix with first row [1, 5, 3, 2], row-major.
pub const DIFFUSION: [u8; 16] = [1, 5, 3, 2, 2, 1, 5, 3, 3, 2, 1, 5, 5, 3, 2, 1];

/// The round constants: one row of four bytes per round, added into the
/// first row of the key-schedule matrix.
pub const ROUND_CONSTANTS: [[u8; 4]; 6] = [
    [0x05, 0x8C, 0xB5, 0x60],
    [0x31, 0x60, 0xB2, 0xA3],
    [0x42, 0xDA, 0x56, 0x1B],
    [0x95, 0x6D, 0x09, 0x7F],
    [0x20, 0x40, 0x5B, 0xCB],
    [0xAB, 0x60, 0xB8, 0xDB],
];

/// The diffusion matrix as a sequence of cells.
pub open spec fn diffusion_cells() -> Seq<u8> {
    Seq::new(16, |i: int| DIFFUSION[i])
}

/// Every cell replaced through the substitution box.
pub open spec fn sub_cells(m: Seq<u8>) -> Seq<u8> {
    Seq::new(16, |i: int| sbox_spec(m[i]))
}

/// Row `r` cyclically rotated left by `r` positions.
pub open spec fn shift_cells(m: Seq<u8>) -> Seq<u8> {
    Seq::new(16, |i: int| m[4 * (i / 4) + ((i % 4 + i / 4) % 4)])
}

/// Round constant row `r` xored into the first row only.
pub open spec fn add_rc_cells(k: Seq<u8>, r: int) -> Seq<u8> {
    Seq::new(
        16,
        |i: int|
            if i < 4 {
                k[i] ^ ROUND_CONSTANTS[r][i]
            } else {
                k[i]
            },
    )
}

/// One round of the round function: substitute and shift both matrices,
/// diffuse them through the fixed matrix, add the round constant into the
/// key schedule, and mix the key schedule into the state.
pub open spec fn round_spec(k: Seq<u8>, m: Seq<u8>, r: int) -> (Seq<u8>, Seq<u8>) {
    let k1 = add_rc_cells(mat_mul(diffusion_cells(), shift_cells(sub_cells(k))), r);
    let m1 = mat_mul(diffusion_cells(), shift_cells(sub_cells(m)));
    (k1, mat_add(m1, k1))
}

/// The first `n` rounds of the round function, starting from key schedule
/// `k` and state `m`.
pub open spec fn rounds_spec(k: Seq<u8>, m: Seq<u8>, n: nat) -> (Seq<u8>, Seq<u8>)
    decreases n,
{
    if n == 0 {
        (k, m)
    } else {
        let prev = rounds_spec(k, m, (n - 1) as nat);
        round_spec(prev.0, prev.1, n - 1)
    }
}

/// The compression step: fold one 16-byte block `w` into the chaining
/// value `h`. The block doubles as a matrix (its bytes row-major), the
/// state starts as block plus chaining value, six rounds transform it, and
/// the feed-forward adds block and chaining value back in.
pub open spec fn compress_spec(h: Seq<u8>, w: Seq<u8>) -> Seq<u8> {
    let m6 = rounds_spec(h, mat_add(w, h), 6).1;
    mat_add(mat_add(m6, w), h)
}

/// Every cell of the matrix substituted through the box.
fn substitute(x: &Matrix) -> (out: Matrix)
    ensures
        out@ == sub_cells(x@),
{
    let mut out = Matrix([BiPoly(0);16]);
    let mut idx: usize = 0;
    while idx < 16
        invariant
            idx <= 16,
            forall|j: int| 0 <= j < idx ==> out@[j] == sub_cells(x@)[j],
        decreases 16 - idx,
    {
        let v = s(x.0[idx]);
        let ghost prev = out@;
        out.0[idx] = v;
        proof {
            assert forall|j: int| 0 <= j < idx + 1 implies out@[j] == sub_cells(x@)[j] by {
                if j < idx {
                    assert(out@[j] == prev[j]);
                } else {
                    assert(out@[j] == v.0);
                }
            }
        }
        idx = idx + 1;
    }
    proof {
        assert(out@ =~= sub_cells(x@));
    }
    out
}

/// Rotate row `r` left by `r` positions.
fn shift_matrix(x: &Matrix) -> (out: Matrix)
    ensures
        out@ == shift_cells(x@),
{
    let mut out = Matrix([BiPoly(0);16]);
    let mut idx: usize = 0;
    while idx < 16
        invariant
            idx <= 16,
            forall|j: int| 0 <= j < idx ==> out@[j] == shift_cells(x@)[j],
        decreases 16 - idx,
    {
        let r = idx / 4;
        let c = idx % 4;
        let v = x.0[4 * r + (c + r) % 4];
        let ghost prev = out@;
        out.0[idx] = v;
        proof {
            assert forall|j: int| 0 <= j < idx + 1 implies out@[j] == shift_cells(x@)[j] by {
                if j < idx {
                    assert(out@[j] == prev[j]);
                } else {
                    assert(out@[j] == v.0);
                }
            }
        }
        idx = idx + 1;
    }
    proof {
        assert(out@ =~= shift_cells(x@));
    }
    out
}

/// Xor round constant row `r` into the first row of the key schedule.
fn add_round_constant(k: &Matrix, r: usize) -> (out: Matrix)
    requires
        r < 6,
    ensures
        out@ == add_rc_cells(k@, r as int),
{
    let mut out = *k;
    let mut idx: usize = 0;
    proof {
        assert(out@ =~= k@);
    }
    while idx < 4
        invariant
            r < 6,
            idx <= 4,
            forall|j: int| 0 <= j < idx ==> out@[j] == add_rc_cells(k@, r as int)[j],
            forall|j: int| idx <= j < 16 ==> out@[j] == k@[j],
        decreases 4 - idx,
    {
        let v = k.0[idx].add(&BiPoly(ROUND_CONSTANTS[r][idx]));
        let ghost prev = out@;
        out.0[idx] = v;
        proof {
            assert forall|j: int| 0 <= j < idx + 1 implies out@[j] == add_rc_cells(k@, r as int)[j]
                by {
                if j < idx {
                    assert(out@[j] == prev[j]);
                } else {
                    assert(out@[j] == v.0);
                }
            }
            assert forall|j: int| idx + 1 <= j < 16 implies out@[j] == k@[j] by {
                assert(out@[j] == prev[j]);
            }
        }
        idx = idx + 1;
    }
    proof {
        assert(out@ =~= add_rc_cells(k@, r as int));
    }
    out
}

/// The diffusion matrix as a matrix value.
fn diffusion_matrix() -> (out: Matrix)
    ensures
        out@ == diffusion_cells(),
{
    let mut out = Matrix([BiPoly(0);16]);
    let mut idx: usize = 0;
    while idx < 16
        invariant
            idx <= 16,
            forall|j: int| 0 <= j < idx ==> out@[j] == diffusion_cells()[j],
        decreases 16 - idx,
    {
        let v = BiPoly(DIFFUSION[idx]);
        let ghost prev = out@;
        out.0[idx] = v;
        proof {
            assert forall|j: int| 0 <= j < idx + 1 implies out@[j] == diffusion_cells()[j] by {
                if j < idx {
                    assert(out@[j] == prev[j]);
                } else {
                    assert(out@[j] == v.0);
                }
            }
        }
        idx = idx + 1;
    }
    proof {
        assert(out@ =~= diffusion_cells());
    }
    out
}

/// The compression function: fold the 16-byte block `w` into the chaining
/// value `h` through six rounds and the Miyaguchi-Preneel feed-forward.
pub fn whirlpool(h: Matrix, w: [u8; 16]) -> (out: Matrix)
    ensures
        out@ == compress_spec(h@, w@),
{
    let mut ablock = Matrix([BiPoly(0);16]);
    let mut idx: usize = 0;
    while idx < 16
        invariant
            idx <= 16,
            forall|j: int| 0 <= j < idx ==> ablock@[j] == w@[j],
        decreases 16 - idx,
    {
        let v = BiPoly(w[idx]);
        let ghost prev = ablock@;
        ablock.0[idx] = v;
        proof {
            assert forall|j: int| 0 <= j < idx + 1 implies ablock@[j] == w@[j] by {
                if j < idx {
                    assert(ablock@[j] == prev[j]);
                } else {
                    assert(ablock@[j] == v.0);
                }
            }
        }
        idx = idx + 1;
    }
    proof {
        assert(ablock@ =~= w@);
    }
    let mut k = h;
    let mut m = add_matrices(ablock, h);
    let ghost m0 = m@;
    let mut round: usize = 0;
    while round < 6
        invariant
            round <= 6,
            k@ == rounds_spec(h@, m0, round as nat).0,
            m@ == rounds_spec(h@, m0, round as nat).1,
        decreases 6 - round,
    {
        k = substitute(&k);
        m = substitute(&m);
        k = shift_matrix(&k);
        m = shift_matrix(&m);
        let t = diffusion_matrix();
        k = mul_matrices(t, k);
        m = mul_matrices(t, m);
        k = add_round_constant(&k, round);
        m = add_matrices(m, k);
        round = round + 1;
    }
    add_matrices(add_matrices(m, ablock), h)
}

/// How long a message of `l` bytes is after padding: room for the payload
/// and the two-byte length field, rounded up to whole blocks, plus one
/// more block when the payload already fills its last block.
pub open spec fn padded_len(l: nat) -> nat {
    ((l + 1) / 16 + 1) * 16
}

/// The padded message: the payload, a zero fill, and the payload length
/// in the last byte (lengths up to 255) or the last two bytes big-endian
/// (longer lengths, silently truncated to 16 bits).
pub open spec fn pad_spec(s: Seq<u8>) -> Seq<u8> {
    let l = s.len();
    let n = padded_len(l) as int;
    Seq::new(
        padded_len(l),
        |i: int|
            if i < l {
                s[i]
            } else if i == n - 1 {
                if l <= 255 {
                    l as u8
                } else {
                    (l % 0x100) as u8
                }
            } else if i == n - 2 && l > 255 {
                ((l % 0x10000) / 0x100) as u8
            } else {
                0u8
            },
    )
}

/// Pad the message in place: zero-fill to whole blocks, always adding at
/// least one byte, and record the original length in the final bytes.
/// Lengths above 65535 are recorded truncated to 16 bits.
pub fn add_padding(input: &mut Vec<u8>)
    requires
        old(input).len() <= usize::MAX - 17,
    ensures
        final(input)@ == pad_spec(old(input)@),
{
    let payload_size: usize = input.len();
    let blocks: usize = (payload_size + LENGTH_SIZE - 1) / BLOCK_SIZE + 1;
    proof {
        assert((payload_size + 1) / 16 * 16 <= payload_size + 1) by (nonlinear_arith);
    }
    let bytes: usize = blocks * BLOCK_SIZE;
    let ghost orig = input@;
    input.resize(bytes, 0u8);
    proof {
        assert forall|i: int| 0 <= i < payload_size implies input@[i] == orig[i] by {
            assert(input@.subrange(0, payload_size as int)[i] == input@[i]);
        }
    }
    if payload_size <= 255 {
        input[bytes - 1] = payload_size as u8;
    } else {
        let high: u16 = ((payload_size as u16) & 0xFF00) >> 8u16;
        let low: u16 = (payload_size as u16) & 0x00FF;
        proof {
            assert(((payload_size as u16) & 0xFF00) >> 8u16 == ((payload_size % 0x10000) / 0x100)
                && ((payload_size as u16) & 0x00FF) == payload_size % 0x100 && ((payload_size
                % 0x10000) / 0x100) < 256 && payload_size % 0x100 < 256) by (bit_vector);
        }
        input[bytes - 2] = high as u8;
        input[bytes - 1] = low as u8;
    }
    proof {
        assert(input@ =~= pad_spec(orig));
    }
}

/// The matrix's sixteen cells, row-major, as plain bytes.
pub fn to_array(matrix: &Matrix) -> (r: [u8; 16])
    ensures
        r@ == matrix@,
{
    let r: [u8; 16] = [
        matrix.0[0].0,
        matrix.0[1].0,
        matrix.0[2].0,
        matrix.0[3].0,
        matrix.0[4].0,
        matrix.0[5].0,
        matrix.0[6].0,
        matrix.0[7].0,
        matrix.0[8].0,
        matrix.0[9].0,
        matrix.0[10].0,
        matrix.0[11].0,
        matrix.0[12].0,
        matrix.0[13].0,
        matrix.0[14].0,
        matrix.0[15].0,
    ];
    proof {
        assert(r@ =~= matrix@);
    }
    r
}

/// The chaining value after folding the first `n` blocks of the padded
/// message `p`, starting from the all-zero matrix.
pub open spec fn chain_spec(p: Seq<u8>, n: nat) -> Seq<u8>
    decreases n,
{
    if n == 0 {
        zero_cells()
    } else {
        compress_spec(chain_spec(p, (n - 1) as nat), p.subrange(16 * (n - 1), 16 * n as int))
    }
}

/// The digest of a message: pad it, fold the compression function over
/// its 16-byte blocks in order, and read the final chaining value.
pub open spec fn hash_spec(s: Seq<u8>) -> Seq<u8> {
    chain_spec(pad_spec(s), padded_len(s.len()) / 16)
}

/// Hash a message to its 16-byte digest. Total and deterministic: the
/// digest is a function of the input bytes alone.
pub fn hash(input: Vec<u8>) -> (digest: [u8; 16])
    requires
        input.len() <= usize::MAX - 17,
    ensures
        digest@ == hash_spec(input@),
{
    let ghost orig = input@;
    let mut input = input;
    add_padding(&mut input);
    proof {
        assert((orig.len() + 1) / 16 * 16 <= orig.len() + 1) by (nonlinear_arith);
        assert(((orig.len() + 1) / 16 + 1) * 16 / 16 == (orig.len() + 1) / 16 + 1)
            by (nonlinear_arith);
    }
    let nblocks: usize = input.len() / BLOCK_SIZE;
    let mut h = Matrix::zeros();
    let mut i: usize = 0;
    while i < nblocks
        invariant
            input@ == pad_spec(orig),
            input@.len() == 16 * nblocks,
            i <= nblocks,
            h@ == chain_spec(input@, i as nat),
        decreases nblocks - i,
    {
        let base: usize = 16 * i;
        let w: [u8; 16] = [
            input[base],
            input[base + 1],
            input[base + 2],
            input[base + 3],
            input[base + 4],
            input[base + 5],
            input[base + 6],
            input[base + 7],
            input[base + 8],
            input[base + 9],
            input[base + 10],
            input[base + 11],
            input[base + 12],
            input[base + 13],
            input[base + 14],
            input[base + 15],
        ];
        proof {
            assert(w@ =~= input@.subrange(16 * i as int, 16 * (i + 1) as int));
        }
        h = whirlpool(h, w);
        i = i + 1;
    }
    to_array(&h)
}

/// The digest is a pure function of the message bytes: byte-identical
/// inputs, however they were built, hash to the same digest, and hashing
/// an input twice gives the same digest both times.
pub proof fn lemma_hash_deterministic(s: Seq<u8>, t: Seq<u8>)
    requires
        s == t,
    ensures
        hash_spec(s) == hash_spec(t),
{
}

} // verus!
