use vstd::prelude::*;

use crate::complex::{
    c_i, c_neg_i, c_neg_one, c_one, c_unit, c_zero, ComplexNumber, SCALE,
};
use crate::matrix::{coded_perm_entry, coded_permutation, ent, mat_unit, mat_wf, Matrix};
use crate::trig::{cos_fx, cos_fx_spec, sin_fx, sin_fx_spec, unit_pair, THETA_LIM};

verus! {

/// `1/sqrt(2)` in the fixed-point encoding.
pub const SQRT_HALF_FX: i64 = 46341;

/// Entries of the 2x2 identity, and of any larger identity block.
pub open spec fn id_entry(i: int, j: int) -> ComplexNumber {
    if i == j {
        c_one()
    } else {
        c_zero()
    }
}

/// Entries of the Pauli X gate.
pub open spec fn pauli_x_entry(i: int, j: int) -> ComplexNumber {
    if i + j == 1 {
        c_one()
    } else {
        c_zero()
    }
}

/// Entries of the Pauli Y gate.
pub open spec fn pauli_y_entry(i: int, j: int) -> ComplexNumber {
    if i == 0 && j == 1 {
        c_neg_i()
    } else if i == 1 && j == 0 {
        c_i()
    } else {
        c_zero()
    }
}

/// Entries of the Pauli Z gate.
pub open spec fn pauli_z_entry(i: int, j: int) -> ComplexNumber {
    if i == 0 && j == 0 {
        c_one()
    } else if i == 1 && j == 1 {
        c_neg_one()
    } else {
        c_zero()
    }
}

/// Entries of the Hadamard gate: `1/sqrt(2)` everywhere, negative in
/// the bottom-right corner.
pub open spec fn hadamard_entry(i: int, j: int) -> ComplexNumber {
    if i == 1 && j == 1 {
        ComplexNumber { real: (-SQRT_HALF_FX) as i64, imaginary: 0 }
    } else {
        ComplexNumber { real: SQRT_HALF_FX, imaginary: 0 }
    }
}

/// Entries of the S gate: `diag(1, i)`.
pub open spec fn s_entry(i: int, j: int) -> ComplexNumber {
    if i == 0 && j == 0 {
        c_one()
    } else if i == 1 && j == 1 {
        c_i()
    } else {
        c_zero()
    }
}

/// The column holding the one of row `i` in the SWAP gate.
pub open spec fn swap_perm(i: int) -> int {
    if i == 1 {
        2
    } else if i == 2 {
        1
    } else {
        i
    }
}

/// The column holding the one of row `i` in the CNOT gate.
pub open spec fn cnot_perm(i: int) -> int {
    if i == 2 {
        3
    } else if i == 3 {
        2
    } else {
        i
    }
}

/// The column holding the one of row `i` in the Toffoli (CCX) gate.
pub open spec fn ccx_perm(i: int) -> int {
    if i == 6 {
        7
    } else if i == 7 {
        6
    } else {
        i
    }
}

/// The column holding the one of row `i` in the Fredkin (CSWAP) gate.
pub open spec fn cswap_perm(i: int) -> int {
    if i == 5 {
        6
    } else if i == 6 {
        5
    } else {
        i
    }
}

/// The column holding the one of row `i` in the CCCX gate.
pub open spec fn cccx_perm(i: int) -> int {
    if i == 14 {
        15
    } else if i == 15 {
        14
    } else {
        i
    }
}

/// Entries of a permutation gate with ones in column `p(i)` of row `i`.
pub open spec fn perm_entry(p: int, j: int) -> ComplexNumber {
    if j == p {
        c_one()
    } else {
        c_zero()
    }
}

/// Entries of the CZ gate: the identity with the last diagonal entry
/// negated.
pub open spec fn cz_entry(i: int, j: int) -> ComplexNumber {
    if i == j && i == 3 {
        c_neg_one()
    } else if i == j {
        c_one()
    } else {
        c_zero()
    }
}

/// Truncating halving of a fixed-point angle, as the executable `/ 2`.
pub open spec fn half_angle(t: int) -> int {
    if t >= 0 {
        t / 2
    } else {
        -((-t) / 2)
    }
}

/// `z` lies between zero and the target value `t`, componentwise: how
/// close the trimmed rotation entries stay to the raw cosine/sine pair.
pub open spec fn toward_zero(a: int, t: int) -> bool {
    if t >= 0 {
        0 <= a <= t
    } else {
        t <= a <= 0
    }
}

/// The cell holding `e^(i*theta)`: exactly the fixed-point cosine and
/// sine when their pair already fits the unit disc, and otherwise
/// that pair trimmed onto the circle, each component kept between
/// zero and its raw value and the modulus kept within two ulps of
/// one unit.
pub open spec fn rot_cell(z: ComplexNumber, theta: int) -> bool {
    let c0 = cos_fx_spec(theta);
    let s0 = sin_fx_spec(theta);
    if c0 * c0 + s0 * s0 <= crate::complex::SCALE_SQ {
        z == (ComplexNumber { real: c0 as i64, imaginary: s0 as i64 })
    } else {
        &&& c_unit(z)
        &&& toward_zero(z.real as int, c0)
        &&& toward_zero(z.imaginary as int, s0)
        &&& crate::complex::c_norm2(z) > crate::complex::SCALE_SQ - 2 * SCALE
    }
}

impl Matrix {
    /// The 2x2 identity.
    pub fn identity2() -> (r: Matrix)
        ensures
            mat_wf(&r),
            mat_unit(&r),
            r.rows == 2,
            r.cols == 2,
            forall|i: int, j: int| 0 <= i < 2 && 0 <= j < 2 ==> #[trigger] ent(&r, i, j) == id_entry(i, j),
    {
        let mut perm: Vec<usize> = Vec::new();
        perm.push(0);
        perm.push(1);
        let mut code: Vec<u8> = Vec::new();
        code.push(0);
        code.push(0);
        let r = coded_permutation(&perm, &code);
        proof {
            assert forall|i: int, j: int| 0 <= i < 2 && 0 <= j < 2 implies ent(&r, i, j)
                == id_entry(i, j) by {
                assert(ent(&r, i, j) == coded_perm_entry(perm@, code@, i, j));
            }
        }
        r
    }

    /// The Pauli X (NOT) gate.
    pub fn pauli_x() -> (r: Matrix)
        ensures
            mat_wf(&r),
            mat_unit(&r),
            r.rows == 2,
            r.cols == 2,
            forall|i: int, j: int|
                0 <= i < 2 && 0 <= j < 2 ==> #[trigger] ent(&r, i, j) == pauli_x_entry(i, j),
    {
        let mut perm: Vec<usize> = Vec::new();
        perm.push(1);
        perm.push(0);
        let mut code: Vec<u8> = Vec::new();
        code.push(0);
        code.push(0);
        let r = coded_permutation(&perm, &code);
        proof {
            assert forall|i: int, j: int| 0 <= i < 2 && 0 <= j < 2 implies ent(&r, i, j)
                == pauli_x_entry(i, j) by {
                assert(ent(&r, i, j) == coded_perm_entry(perm@, code@, i, j));
            }
        }
        r
    }

    /// The Pauli Y gate.
    pub fn pauli_y() -> (r: Matrix)
        ensures
            mat_wf(&r),
            mat_unit(&r),
            r.rows == 2,
            r.cols == 2,
            forall|i: int, j: int|
                0 <= i < 2 && 0 <= j < 2 ==> #[trigger] ent(&r, i, j) == pauli_y_entry(i, j),
    {
        let mut perm: Vec<usize> = Vec::new();
        perm.push(1);
        perm.push(0);
        let mut code: Vec<u8> = Vec::new();
        code.push(3);
        code.push(2);
        let r = coded_permutation(&perm, &code);
        proof {
            assert forall|i: int, j: int| 0 <= i < 2 && 0 <= j < 2 implies ent(&r, i, j)
                == pauli_y_entry(i, j) by {
                assert(ent(&r, i, j) == coded_perm_entry(perm@, code@, i, j));
            }
        }
        r
    }

    /// The Pauli Z gate.
    pub fn pauli_z() -> (r: Matrix)
        ensures
            mat_wf(&r),
            mat_unit(&r),
            r.rows == 2,
            r.cols == 2,
            forall|i: int, j: int|
                0 <= i < 2 && 0 <= j < 2 ==> #[trigger] ent(&r, i, j) == pauli_z_entry(i, j),
    {
        let mut perm: Vec<usize> = Vec::new();
        perm.push(0);
        perm.push(1);
        let mut code: Vec<u8> = Vec::new();
        code.push(0);
        code.push(1);
        let r = coded_permutation(&perm, &code);
        proof {
            assert forall|i: int, j: int| 0 <= i < 2 && 0 <= j < 2 implies ent(&r, i, j)
                == pauli_z_entry(i, j) by {
                assert(ent(&r, i, j) == coded_perm_entry(perm@, code@, i, j));
            }
        }
        r
    }

    /// The S gate: a phase shift of `pi/2`, `diag(1, i)`.
    pub fn s() -> (r: Matrix)
        ensures
            mat_wf(&r),
            mat_unit(&r),
            r.rows == 2,
            r.cols == 2,
            forall|i: int, j: int| 0 <= i < 2 && 0 <= j < 2 ==> #[trigger] ent(&r, i, j) == s_entry(i, j),
    {
        let mut perm: Vec<usize> = Vec::new();
        perm.push(0);
        perm.push(1);
        let mut code: Vec<u8> = Vec::new();
        code.push(0);
        code.push(2);
        let r = coded_permutation(&perm, &code);
        proof {
            assert forall|i: int, j: int| 0 <= i < 2 && 0 <= j < 2 implies ent(&r, i, j)
                == s_entry(i, j) by {
                assert(ent(&r, i, j) == coded_perm_entry(perm@, code@, i, j));
            }
        }
        r
    }

    /// The Hadamard gate.
    pub fn hadamard() -> (r: Matrix)
        ensures
            mat_wf(&r),
            mat_unit(&r),
            r.rows == 2,
            r.cols == 2,
            forall|i: int, j: int|
                0 <= i < 2 && 0 <= j < 2 ==> #[trigger] ent(&r, i, j) == hadamard_entry(i, j),
    {
        let h: ComplexNumber = ComplexNumber::new(SQRT_HALF_FX, 0);
        let hn: ComplexNumber = ComplexNumber::new(-SQRT_HALF_FX, 0);
        let mut row0: Vec<ComplexNumber> = Vec::new();
        row0.push(h);
        row0.push(h);
        let mut row1: Vec<ComplexNumber> = Vec::new();
        row1.push(h);
        row1.push(hn);
        let mut value: Vec<Vec<ComplexNumber>> = Vec::new();
        value.push(row0);
        value.push(row1);
        proof {
            lemma_single_unit(SQRT_HALF_FX as int);
            lemma_single_unit(-(SQRT_HALF_FX as int));
        }
        Matrix { value, rows: 2, cols: 2 }
    }

    /// The phase gate `diag(1, e^(i*theta))`.
    pub fn phase(theta: i64) -> (r: Matrix)
        requires
            -THETA_LIM <= theta <= THETA_LIM,
        ensures
            mat_wf(&r),
            mat_unit(&r),
            r.rows == 2,
            r.cols == 2,
            ent(&r, 0, 0) == c_one(),
            ent(&r, 0, 1) == c_zero(),
            ent(&r, 1, 0) == c_zero(),
            rot_cell(ent(&r, 1, 1), theta as int),
    {
        let c0: i64 = cos_fx(theta);
        let s0: i64 = sin_fx(theta);
        let cs: (i64, i64) = unit_pair(c0, s0);
        let cell: ComplexNumber = ComplexNumber::new(cs.0, cs.1);
        let mut row0: Vec<ComplexNumber> = Vec::new();
        row0.push(ComplexNumber::new(SCALE, 0));
        row0.push(ComplexNumber::new(0, 0));
        let mut row1: Vec<ComplexNumber> = Vec::new();
        row1.push(ComplexNumber::new(0, 0));
        row1.push(cell);
        let mut value: Vec<Vec<ComplexNumber>> = Vec::new();
        value.push(row0);
        value.push(row1);
        proof {
            assert((SCALE as int) * (SCALE as int) == crate::complex::SCALE_SQ) by (nonlinear_arith);
        }
        Matrix { value, rows: 2, cols: 2 }
    }

    /// The rotation about the X axis by `theta`:
    /// `[[cos(t/2), -i sin(t/2)], [-i sin(t/2), cos(t/2)]]`.
    pub fn rx(theta: i64) -> (r: Matrix)
        requires
            -THETA_LIM <= theta <= THETA_LIM,
        ensures
            mat_wf(&r),
            mat_unit(&r),
            r.rows == 2,
            r.cols == 2,
            ent(&r, 0, 0) == (ComplexNumber {
                real: cos_fx_spec(half_angle(theta as int)) as i64,
                imaginary: 0,
            }),
            ent(&r, 0, 1) == (ComplexNumber {
                real: 0,
                imaginary: (-sin_fx_spec(half_angle(theta as int))) as i64,
            }),
            ent(&r, 1, 0) == ent(&r, 0, 1),
            ent(&r, 1, 1) == ent(&r, 0, 0),
    {
        let half: i64 = theta / 2;
        let c: i64 = cos_fx(half);
        let s: i64 = sin_fx(half);
        let diag: ComplexNumber = ComplexNumber::new(c, 0);
        let off: ComplexNumber = ComplexNumber::new(0, -s);
        let mut row0: Vec<ComplexNumber> = Vec::new();
        row0.push(diag);
        row0.push(off);
        let mut row1: Vec<ComplexNumber> = Vec::new();
        row1.push(off);
        row1.push(diag);
        let mut value: Vec<Vec<ComplexNumber>> = Vec::new();
        value.push(row0);
        value.push(row1);
        proof {
            lemma_single_unit(c as int);
            lemma_single_unit(-(s as int));
        }
        Matrix { value, rows: 2, cols: 2 }
    }

    /// The rotation about the Y axis by `theta`:
    /// `[[cos(t/2), -sin(t/2)], [sin(t/2), cos(t/2)]]`.
    pub fn ry(theta: i64) -> (r: Matrix)
        requires
            -THETA_LIM <= theta <= THETA_LIM,
        ensures
            mat_wf(&r),
            mat_unit(&r),
            r.rows == 2,
            r.cols == 2,
            ent(&r, 0, 0) == (ComplexNumber {
                real: cos_fx_spec(half_angle(theta as int)) as i64,
                imaginary: 0,
            }),
            ent(&r, 0, 1) == (ComplexNumber {
                real: (-sin_fx_spec(half_angle(theta as int))) as i64,
                imaginary: 0,
            }),
            ent(&r, 1, 0) == (ComplexNumber {
                real: sin_fx_spec(half_angle(theta as int)) as i64,
                imaginary: 0,
            }),
            ent(&r, 1, 1) == ent(&r, 0, 0),
    {
        let half: i64 = theta / 2;
        let c: i64 = cos_fx(half);
        let s: i64 = sin_fx(half);
        let mut row0: Vec<ComplexNumber> = Vec::new();
        row0.push(ComplexNumber::new(c, 0));
        row0.push(ComplexNumber::new(-s, 0));
        let mut row1: Vec<ComplexNumber> = Vec::new();
        row1.push(ComplexNumber::new(s, 0));
        row1.push(ComplexNumber::new(c, 0));
        let mut value: Vec<Vec<ComplexNumber>> = Vec::new();
        value.push(row0);
        value.push(row1);
        proof {
            lemma_single_unit(c as int);
            lemma_single_unit(s as int);
            lemma_single_unit(-(s as int));
        }
        Matrix { value, rows: 2, cols: 2 }
    }

    /// The rotation about the Z axis by `theta`:
    /// `diag(e^(-i*t/2), e^(i*t/2))`.
    pub fn rz(theta: i64) -> (r: Matrix)
        requires
            -THETA_LIM <= theta <= THETA_LIM,
        ensures
            mat_wf(&r),
            mat_unit(&r),
            r.rows == 2,
            r.cols == 2,
            ent(&r, 0, 1) == c_zero(),
            ent(&r, 1, 0) == c_zero(),
            rot_cell(ent(&r, 1, 1), half_angle(theta as int)),
            ent(&r, 0, 0).real == ent(&r, 1, 1).real,
            ent(&r, 0, 0).imaginary == -ent(&r, 1, 1).imaginary,
    {
        let half: i64 = theta / 2;
        let c0: i64 = cos_fx(half);
        let s0: i64 = sin_fx(half);
        let cs: (i64, i64) = unit_pair(c0, s0);
        let upper: ComplexNumber = ComplexNumber::new(cs.0, -cs.1);
        let lower: ComplexNumber = ComplexNumber::new(cs.0, cs.1);
        let mut row0: Vec<ComplexNumber> = Vec::new();
        row0.push(upper);
        row0.push(ComplexNumber::new(0, 0));
        let mut row1: Vec<ComplexNumber> = Vec::new();
        row1.push(ComplexNumber::new(0, 0));
        row1.push(lower);
        let mut value: Vec<Vec<ComplexNumber>> = Vec::new();
        value.push(row0);
        value.push(row1);
        proof {
            assert(crate::complex::c_norm2(upper) == crate::complex::c_norm2(lower))
                by (nonlinear_arith)
                requires
                    upper.real == lower.real,
                    upper.imaginary == -(lower.imaginary as int),
            ;
        }
        Matrix { value, rows: 2, cols: 2 }
    }

    /// The SWAP gate on two qubits.
    pub fn swap() -> (r: Matrix)
        ensures
            mat_wf(&r),
            mat_unit(&r),
            r.rows == 4,
            r.cols == 4,
            forall|i: int, j: int|
                0 <= i < 4 && 0 <= j < 4 ==> #[trigger] ent(&r, i, j) == perm_entry(swap_perm(i), j),
    {
        let mut perm: Vec<usize> = Vec::new();
        perm.push(0);
        perm.push(2);
        perm.push(1);
        perm.push(3);
        let mut code: Vec<u8> = Vec::new();
        let mut k: usize = 0;
        while k < 4
            invariant
                code@.len() == k,
                k <= 4,
                forall|p: int| 0 <= p < k ==> code@[p] == 0u8,
            decreases 4 - k,
        {
            code.push(0);
            k = k + 1;
        }
        let r = coded_permutation(&perm, &code);
        proof {
            assert forall|i: int, j: int| 0 <= i < 4 && 0 <= j < 4 implies ent(&r, i, j)
                == perm_entry(swap_perm(i), j) by {
                assert(ent(&r, i, j) == coded_perm_entry(perm@, code@, i, j));
            }
        }
        r
    }

    /// The controlled-NOT gate: flips the second qubit when the first
    /// is one.
    pub fn cnot() -> (r: Matrix)
        ensures
            mat_wf(&r),
            mat_unit(&r),
            r.rows == 4,
            r.cols == 4,
            forall|i: int, j: int|
                0 <= i < 4 && 0 <= j < 4 ==> #[trigger] ent(&r, i, j) == perm_entry(cnot_perm(i), j),
    {
        let mut perm: Vec<usize> = Vec::new();
        perm.push(0);
        perm.push(1);
        perm.push(3);
        perm.push(2);
        let mut code: Vec<u8> = Vec::new();
        let mut k: usize = 0;
        while k < 4
            invariant
                code@.len() == k,
                k <= 4,
                forall|p: int| 0 <= p < k ==> code@[p] == 0u8,
            decreases 4 - k,
        {
            code.push(0);
            k = k + 1;
        }
        let r = coded_permutation(&perm, &code);
        proof {
            assert forall|i: int, j: int| 0 <= i < 4 && 0 <= j < 4 implies ent(&r, i, j)
                == perm_entry(cnot_perm(i), j) by {
                assert(ent(&r, i, j) == coded_perm_entry(perm@, code@, i, j));
            }
        }
        r
    }

    /// The controlled-Z gate: the identity with the last diagonal entry
    /// negated.
    pub fn cz() -> (r: Matrix)
        ensures
            mat_wf(&r),
            mat_unit(&r),
            r.rows == 4,
            r.cols == 4,
            forall|i: int, j: int| 0 <= i < 4 && 0 <= j < 4 ==> #[trigger] ent(&r, i, j) == cz_entry(i, j),
    {
        let mut perm: Vec<usize> = Vec::new();
        perm.push(0);
        perm.push(1);
        perm.push(2);
        perm.push(3);
        let mut code: Vec<u8> = Vec::new();
        code.push(0);
        code.push(0);
        code.push(0);
        code.push(1);
        let r = coded_permutation(&perm, &code);
        proof {
            assert forall|i: int, j: int| 0 <= i < 4 && 0 <= j < 4 implies ent(&r, i, j)
                == cz_entry(i, j) by {
                assert(ent(&r, i, j) == coded_perm_entry(perm@, code@, i, j));
            }
        }
        r
    }

    /// The Toffoli gate: flips the third qubit when the first two are
    /// one.
    pub fn ccx() -> (r: Matrix)
        ensures
            mat_wf(&r),
            mat_unit(&r),
            r.rows == 8,
            r.cols == 8,
            forall|i: int, j: int|
                0 <= i < 8 && 0 <= j < 8 ==> #[trigger] ent(&r, i, j) == perm_entry(ccx_perm(i), j),
    {
        let mut perm: Vec<usize> = Vec::new();
        let mut k: usize = 0;
        while k < 6
            invariant
                perm@.len() == k,
                k <= 6,
                forall|p: int| 0 <= p < k ==> perm@[p] == p,
            decreases 6 - k,
        {
            perm.push(k);
            k = k + 1;
        }
        perm.push(7);
        perm.push(6);
        let mut code: Vec<u8> = Vec::new();
        let mut l: usize = 0;
        while l < 8
            invariant
                code@.len() == l,
                l <= 8,
                forall|p: int| 0 <= p < l ==> code@[p] == 0u8,
            decreases 8 - l,
        {
            code.push(0);
            l = l + 1;
        }
        let r = coded_permutation(&perm, &code);
        proof {
            assert forall|i: int, j: int| 0 <= i < 8 && 0 <= j < 8 implies ent(&r, i, j)
                == perm_entry(ccx_perm(i), j) by {
                assert(ent(&r, i, j) == coded_perm_entry(perm@, code@, i, j));
            }
        }
        r
    }

    /// The Fredkin gate: swaps the last two qubits when the first is
    /// one.
    pub fn cswap() -> (r: Matrix)
        ensures
            mat_wf(&r),
            mat_unit(&r),
            r.rows == 8,
            r.cols == 8,
            forall|i: int, j: int|
                0 <= i < 8 && 0 <= j < 8 ==> #[trigger] ent(&r, i, j) == perm_entry(cswap_perm(i), j),
    {
        let mut perm: Vec<usize> = Vec::new();
        let mut k: usize = 0;
        while k < 5
            invariant
                perm@.len() == k,
                k <= 5,
                forall|p: int| 0 <= p < k ==> perm@[p] == p,
            decreases 5 - k,
        {
            perm.push(k);
            k = k + 1;
        }
        perm.push(6);
        perm.push(5);
        perm.push(7);
        let mut code: Vec<u8> = Vec::new();
        let mut l: usize = 0;
        while l < 8
            invariant
                code@.len() == l,
                l <= 8,
                forall|p: int| 0 <= p < l ==> code@[p] == 0u8,
            decreases 8 - l,
        {
            code.push(0);
            l = l + 1;
        }
        let r = coded_permutation(&perm, &code);
        proof {
            assert forall|i: int, j: int| 0 <= i < 8 && 0 <= j < 8 implies ent(&r, i, j)
                == perm_entry(cswap_perm(i), j) by {
                assert(ent(&r, i, j) == coded_perm_entry(perm@, code@, i, j));
            }
        }
        r
    }

    /// The triple-controlled NOT gate: the 16x16 identity with the last
    /// two diagonal entries swapped off the diagonal.
    pub fn cccx() -> (r: Matrix)
        ensures
            mat_wf(&r),
            mat_unit(&r),
            r.rows == 16,
            r.cols == 16,
            forall|i: int, j: int|
                0 <= i < 16 && 0 <= j < 16 ==> #[trigger] ent(&r, i, j) == perm_entry(cccx_perm(i), j),
    {
        let mut perm: Vec<usize> = Vec::new();
        let mut k: usize = 0;
        while k < 14
            invariant
                perm@.len() == k,
                k <= 14,
                forall|p: int| 0 <= p < k ==> perm@[p] == p,
            decreases 14 - k,
        {
            perm.push(k);
            k = k + 1;
        }
        perm.push(15);
        perm.push(14);
        let mut code: Vec<u8> = Vec::new();
        let mut l: usize = 0;
        while l < 16
            invariant
                code@.len() == l,
                l <= 16,
                forall|p: int| 0 <= p < l ==> code@[p] == 0u8,
            decreases 16 - l,
        {
            code.push(0);
            l = l + 1;
        }
        let r = coded_permutation(&perm, &code);
        proof {
            assert forall|i: int, j: int| 0 <= i < 16 && 0 <= j < 16 implies ent(&r, i, j)
                == perm_entry(cccx_perm(i), j) by {
                assert(ent(&r, i, j) == coded_perm_entry(perm@, code@, i, j));
            }
        }
        r
    }
}

/// One cell of the circuit grid: a named gate, a parameterized
/// rotation, the measurement marker `M`, or a placeholder (`Other`)
/// occupying the extra tracks of a multi-qubit gate and serving as the
/// hook for user-defined subroutines.
#[derive(Clone, Debug, PartialEq)]
pub enum Gate {
    I,
    X,
    Y,
    Z,
    H,
    M,
    P(i64),
    S,
    RX(i64),
    RY(i64),
    RZ(i64),
    CNOT,
    CZ,
    SWAP,
    CCX,
    CCCX,
    CSWAP,
    Other(String),
}

/// A gate whose angle, if any, is within the accepted range.
pub open spec fn gate_ok(g: Gate) -> bool {
    match g {
        Gate::P(t) => -THETA_LIM <= t <= THETA_LIM,
        Gate::RX(t) => -THETA_LIM <= t <= THETA_LIM,
        Gate::RY(t) => -THETA_LIM <= t <= THETA_LIM,
        Gate::RZ(t) => -THETA_LIM <= t <= THETA_LIM,
        _ => true,
    }
}

/// The side of a gate's unitary matrix.
pub open spec fn gate_rows(g: Gate) -> int {
    match g {
        Gate::CNOT => 4,
        Gate::CZ => 4,
        Gate::SWAP => 4,
        Gate::CCX => 8,
        Gate::CSWAP => 8,
        Gate::CCCX => 16,
        Gate::Other(_) => 1,
        _ => 2,
    }
}

/// What `to_matrix` promises of each gate's matrix `m`: the fixed
/// gates are pinned entry by entry; the parameterized rotations are
/// pinned up to the trimming of their cosine/sine cells.
pub open spec fn gate_matrix_ok(g: Gate, m: Seq<Seq<ComplexNumber>>) -> bool {
    &&& m.len() == gate_rows(g)
    &&& (forall|i: int| 0 <= i < m.len() ==> (#[trigger] m[i]).len() == gate_rows(g))
    &&& match g {
        Gate::I => forall|i: int, j: int| 0 <= i < 2 && 0 <= j < 2 ==> #[trigger] m[i][j] == id_entry(i, j),
        Gate::M => forall|i: int, j: int| 0 <= i < 2 && 0 <= j < 2 ==> #[trigger] m[i][j] == id_entry(i, j),
        Gate::X => forall|i: int, j: int| 0 <= i < 2 && 0 <= j < 2 ==> #[trigger] m[i][j] == pauli_x_entry(i, j),
        Gate::Y => forall|i: int, j: int| 0 <= i < 2 && 0 <= j < 2 ==> #[trigger] m[i][j] == pauli_y_entry(i, j),
        Gate::Z => forall|i: int, j: int| 0 <= i < 2 && 0 <= j < 2 ==> #[trigger] m[i][j] == pauli_z_entry(i, j),
        Gate::H => forall|i: int, j: int| 0 <= i < 2 && 0 <= j < 2 ==> #[trigger] m[i][j] == hadamard_entry(i, j),
        Gate::S => forall|i: int, j: int| 0 <= i < 2 && 0 <= j < 2 ==> #[trigger] m[i][j] == s_entry(i, j),
        Gate::P(t) => m[0][0] == c_one() && m[0][1] == c_zero() && m[1][0] == c_zero()
            && rot_cell(m[1][1], t as int),
        Gate::RX(t) => m[0][0] == (ComplexNumber {
            real: cos_fx_spec(half_angle(t as int)) as i64,
            imaginary: 0,
        }) && m[0][1] == (ComplexNumber {
            real: 0,
            imaginary: (-sin_fx_spec(half_angle(t as int))) as i64,
        }) && m[1][0] == m[0][1] && m[1][1] == m[0][0],
        Gate::RY(t) => m[0][0] == (ComplexNumber {
            real: cos_fx_spec(half_angle(t as int)) as i64,
            imaginary: 0,
        }) && m[0][1] == (ComplexNumber {
            real: (-sin_fx_spec(half_angle(t as int))) as i64,
            imaginary: 0,
        }) && m[1][0] == (ComplexNumber {
            real: sin_fx_spec(half_angle(t as int)) as i64,
            imaginary: 0,
        }) && m[1][1] == m[0][0],
        Gate::RZ(t) => m[0][1] == c_zero() && m[1][0] == c_zero() && rot_cell(
            m[1][1],
            half_angle(t as int),
        ) && m[0][0].real == m[1][1].real && m[0][0].imaginary == -m[1][1].imaginary,
        Gate::CNOT => forall|i: int, j: int| 0 <= i < 4 && 0 <= j < 4 ==> #[trigger] m[i][j] == perm_entry(cnot_perm(i), j),
        Gate::CZ => forall|i: int, j: int| 0 <= i < 4 && 0 <= j < 4 ==> #[trigger] m[i][j] == cz_entry(i, j),
        Gate::SWAP => forall|i: int, j: int| 0 <= i < 4 && 0 <= j < 4 ==> #[trigger] m[i][j] == perm_entry(swap_perm(i), j),
        Gate::CCX => forall|i: int, j: int| 0 <= i < 8 && 0 <= j < 8 ==> #[trigger] m[i][j] == perm_entry(ccx_perm(i), j),
        Gate::CSWAP => forall|i: int, j: int| 0 <= i < 8 && 0 <= j < 8 ==> #[trigger] m[i][j] == perm_entry(cswap_perm(i), j),
        Gate::CCCX => forall|i: int, j: int| 0 <= i < 16 && 0 <= j < 16 ==> #[trigger] m[i][j] == perm_entry(cccx_perm(i), j),
        Gate::Other(_) => m == crate::matrix::one_by_one(),
    }
}

impl Gate {
    /// The unitary matrix of this gate; `M` contributes the identity
    /// and a placeholder the empty 1x1 factor.
    pub fn to_matrix(&self) -> (r: Matrix)
        requires
            gate_ok(*self),
        ensures
            mat_wf(&r),
            mat_unit(&r),
            r.rows == gate_rows(*self),
            r.cols == gate_rows(*self),
            gate_matrix_ok(*self, crate::matrix::mat_view(&r)),
    {
        let r = match self {
            Gate::I => Matrix::identity2(),
            Gate::X => Matrix::pauli_x(),
            Gate::Y => Matrix::pauli_y(),
            Gate::Z => Matrix::pauli_z(),
            Gate::H => Matrix::hadamard(),
            Gate::M => Matrix::identity2(),
            Gate::S => Matrix::s(),
            Gate::P(theta) => Matrix::phase(*theta),
            Gate::RX(theta) => Matrix::rx(*theta),
            Gate::RY(theta) => Matrix::ry(*theta),
            Gate::RZ(theta) => Matrix::rz(*theta),
            Gate::CNOT => Matrix::cnot(),
            Gate::CZ => Matrix::cz(),
            Gate::SWAP => Matrix::swap(),
            Gate::CCX => Matrix::ccx(),
            Gate::CCCX => Matrix::cccx(),
            Gate::CSWAP => Matrix::cswap(),
            Gate::Other(_) => Matrix::scalar_one(),
        };
        proof {
            assert(crate::matrix::mat_view(&r).len() == r.rows);
            assert forall|i: int|
                0 <= i < crate::matrix::mat_view(&r).len() implies (#[trigger] crate::matrix::mat_view(
                &r,
            )[i]).len() == r.cols by {
                assert(crate::matrix::mat_view(&r)[i] == r.value@[i]@);
            }
            assert forall|i: int, j: int|
                0 <= i < r.rows && 0 <= j < r.cols implies #[trigger] crate::matrix::mat_view(
                &r,
            )[i][j] == ent(&r, i, j) by {
                assert(crate::matrix::mat_view(&r)[i] == r.value@[i]@);
            }
        }
        r
    }

    /// Whether this is the parameterized phase gate.
    pub fn is_phase(&self) -> (r: bool)
        ensures
            r == (self is P),
    {
        match self {
            Gate::P(_) => true,
            _ => false,
        }
    }

    /// Whether this cell is a placeholder occupied by an earlier
    /// multi-qubit gate (or a subroutine hook).
    pub fn is_placeholder(&self) -> (r: bool)
        ensures
            r == (self is Other),
    {
        match self {
            Gate::Other(_) => true,
            _ => false,
        }
    }

    /// Whether this is the measurement marker.
    pub fn is_measure(&self) -> (r: bool)
        ensures
            r == (self is M),
    {
        match self {
            Gate::M => true,
            _ => false,
        }
    }
}

impl Matrix {
    /// The 1x1 matrix holding one: the starting point of every
    /// Kronecker fold.
    pub fn scalar_one() -> (r: Matrix)
        ensures
            mat_wf(&r),
            mat_unit(&r),
            r.rows == 1,
            r.cols == 1,
            crate::matrix::mat_view(&r) == crate::matrix::one_by_one(),
    {
        let mut row: Vec<ComplexNumber> = Vec::new();
        row.push(ComplexNumber::new(SCALE, 0));
        let mut value: Vec<Vec<ComplexNumber>> = Vec::new();
        value.push(row);
        proof {
            assert((SCALE as int) * (SCALE as int) == crate::complex::SCALE_SQ)
                by (nonlinear_arith);
        }
        let r = Matrix { value, rows: 1, cols: 1 };
        proof {
            assert(crate::matrix::mat_view(&r) =~~= crate::matrix::one_by_one());
        }
        r
    }
}

/// A value within one unit in magnitude squares to at most one unit
/// squared.
proof fn lemma_single_unit(x: int)
    requires
        -SCALE <= x <= SCALE,
    ensures
        x * x <= crate::complex::SCALE_SQ,
        x * x >= 0,
{
    assert(x * x <= crate::complex::SCALE_SQ && x * x >= 0) by (nonlinear_arith)
        requires
            -65536 <= x <= 65536,
    ;
}

/// Two cells carry the same gate; placeholder names are not compared.
pub open spec fn gate_like(a: Gate, b: Gate) -> bool {
    if a is Other {
        b is Other
    } else {
        a == b
    }
}

/// The number of tracks a gate occupies in a column.
pub open spec fn gate_span(g: Gate) -> int {
    match g {
        Gate::CNOT => 2,
        Gate::CZ => 2,
        Gate::SWAP => 2,
        Gate::CCX => 3,
        Gate::CSWAP => 3,
        Gate::CCCX => 4,
        _ => 1,
    }
}

impl Gate {
    /// An exact copy of this cell, placeholder names included.
    pub fn duplicate(&self) -> (r: Gate)
        ensures
            r == *self,
            gate_like(r, *self),
            gate_like(*self, r),
            gate_rows(r) == gate_rows(*self),
            gate_ok(*self) ==> gate_ok(r),
            (r is M) == (*self is M),
            (r is Other) == (*self is Other),
    {
        match self {
            Gate::I => Gate::I,
            Gate::X => Gate::X,
            Gate::Y => Gate::Y,
            Gate::Z => Gate::Z,
            Gate::H => Gate::H,
            Gate::M => Gate::M,
            Gate::P(t) => Gate::P(*t),
            Gate::S => Gate::S,
            Gate::RX(t) => Gate::RX(*t),
            Gate::RY(t) => Gate::RY(*t),
            Gate::RZ(t) => Gate::RZ(*t),
            Gate::CNOT => Gate::CNOT,
            Gate::CZ => Gate::CZ,
            Gate::SWAP => Gate::SWAP,
            Gate::CCX => Gate::CCX,
            Gate::CCCX => Gate::CCCX,
            Gate::CSWAP => Gate::CSWAP,
            Gate::Other(name) => Gate::Other(name.clone()),
        }
    }

    /// How many tracks this gate occupies.
    pub fn span(&self) -> (r: usize)
        ensures
            r == gate_span(*self),
            1 <= r <= 4,
            reg_size(r as nat) == gate_rows(*self) || (*self is Other && r == 1),
    {
        proof {
            reveal_with_fuel(reg_size, 5);
        }
        match self {
            Gate::CNOT => 2,
            Gate::CZ => 2,
            Gate::SWAP => 2,
            Gate::CCX => 3,
            Gate::CSWAP => 3,
            Gate::CCCX => 4,
            _ => 1,
        }
    }
}

/// `2^n` (shared with the register-size arithmetic).
pub use crate::qubit::reg_size;

} // verus!
