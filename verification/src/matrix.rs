//! 4x4 matrices of field elements: the shape of the chaining value, the
//! message block and the round state.

use vstd::prelude::*;
use crate::bipoly::BiPoly;
use crate::poly::gf_mul;

verus! {

/// A 4x4 matrix of GF(2^8) elements, stored row-major: the cell at row
/// `r`, column `c` is entry `4 * r + c`. Its view is the sequence of the
/// sixteen byte values in that order.
#[derive(Copy, Clone, Debug, Eq, PartialEq)]
pub struct Matrix(pub [BiPoly; 16]);

impl View for Matrix {
    type V = Seq<u8>;

    open spec fn view(&self) -> Seq<u8> {
        Seq::new(16, |i: int| self.0[i].0)
    }
}

/// The all-zero matrix, as a sequence of cells.
pub open spec fn zero_cells() -> Seq<u8> {
    Seq::new(16, |i: int| 0u8)
}

/// Cell-wise addition of two matrices.
pub open spec fn mat_add(a: Seq<u8>, b: Seq<u8>) -> Seq<u8> {
    Seq::new(16, |i: int| a[i] ^ b[i])
}

/// One cell of the matrix product: the field inner product of row `r` of
/// `a` with column `c` of `b`, accumulated lowest index first.
pub open spec fn mul_cell(a: Seq<u8>, b: Seq<u8>, r: int, c: int) -> u8 {
    gf_mul(a[4 * r + 3], b[12 + c]) ^ (gf_mul(a[4 * r + 2], b[8 + c]) ^ (gf_mul(
        a[4 * r + 1],
        b[4 + c],
    ) ^ gf_mul(a[4 * r], b[c])))
}

/// The matrix product over GF(2^8).
pub open spec fn mat_mul(a: Seq<u8>, b: Seq<u8>) -> Seq<u8> {
    Seq::new(16, |i: int| mul_cell(a, b, i / 4, i % 4))
}

impl Matrix {
    /// The all-zero matrix: the canonical initial chaining value.
    pub fn zeros() -> (m: Matrix)
        ensures
            m@ == zero_cells(),
    {
        let m = Matrix([BiPoly(0);16]);
        proof {
            assert(m@ =~= zero_cells());
        }
        m
    }
}

/// One cell of the matrix product, computed with field operations.
fn mul_cell_exec(a: &Matrix, b: &Matrix, r: usize, c: usize) -> (out: BiPoly)
    requires
        r < 4,
        c < 4,
    ensures
        out.0 == mul_cell(a@, b@, r as int, c as int),
{
    let m0 = a.0[4 * r].mulmod(&b.0[c]);
    let m1 = a.0[4 * r + 1].mulmod(&b.0[4 + c]);
    let m2 = a.0[4 * r + 2].mulmod(&b.0[8 + c]);
    let m3 = a.0[4 * r + 3].mulmod(&b.0[12 + c]);
    m3.add(&m2.add(&m1.add(&m0)))
}

/// The matrix product over GF(2^8).
pub fn mul_matrices(a: Matrix, b: Matrix) -> (out: Matrix)
    ensures
        out@ == mat_mul(a@, b@),
{
    let mut out = Matrix([BiPoly(0);16]);
    let mut idx: usize = 0;
    while idx < 16
        invariant
            idx <= 16,
            forall|j: int| 0 <= j < idx ==> out@[j] == mat_mul(a@, b@)[j],
        decreases 16 - idx,
    {
        let v = mul_cell_exec(&a, &b, idx / 4, idx % 4);
        let ghost prev = out@;
        out.0[idx] = v;
        proof {
            assert forall|j: int| 0 <= j < idx + 1 implies out@[j] == mat_mul(a@, b@)[j] by {
                if j < idx {
                    assert(out@[j] == prev[j]);
                } else {
                    assert(out@[j] == v.0);
                }
            }
        }
        idx = idx + 1;
    }
    proof {
        assert(out@ =~= mat_mul(a@, b@));
    }
    out
}

/// Cell-wise addition of two matrices.
pub fn add_matrices(a: Matrix, b: Matrix) -> (out: Matrix)
    ensures
        out@ == mat_add(a@, b@),
{
    let mut out = Matrix([BiPoly(0);16]);
    let mut idx: usize = 0;
    while idx < 16
        invariant
            idx <= 16,
            forall|j: int| 0 <= j < idx ==> out@[j] == mat_add(a@, b@)[j],
        decreases 16 - idx,
    {
        let v = a.0[idx].add(&b.0[idx]);
        let ghost prev = out@;
        out.0[idx] = v;
        proof {
            assert forall|j: int| 0 <= j < idx + 1 implies out@[j] == mat_add(a@, b@)[j] by {
                if j < idx {
                    assert(out@[j] == prev[j]);
                } else {
                    assert(out@[j] == v.0);
                }
            }
        }
        idx = idx + 1;
    }
    proof {
        assert(out@ =~= mat_add(a@, b@));
    }
    out
}

} // verus!
