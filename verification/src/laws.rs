use vstd::prelude::*;

use crate::complex::{
    c_add, c_conj, c_mul, c_one, c_zero, ComplexNumber, SCALE, SCALE_SQ,
};
use crate::gates::{
    ccx_perm, cccx_perm, cnot_perm, cswap_perm, cz_entry, hadamard_entry, id_entry, pauli_x_entry,
    pauli_y_entry, pauli_z_entry, perm_entry, s_entry, swap_perm,
};

verus! {

/// Entry `(i, k)` of `U * U^dagger`, as the sum over the first `n`
/// columns of `U[i][j] * conj(U[k][j])`.
pub open spec fn rowcol_inner(m: Seq<Seq<ComplexNumber>>, i: int, k: int, n: int) -> ComplexNumber
    decreases n,
{
    if n <= 0 {
        c_zero()
    } else {
        c_add(rowcol_inner(m, i, k, n - 1), c_mul(m[i][n - 1], c_conj(m[k][n - 1])))
    }
}

/// What perfect unitarity says of `U * U^dagger`: the identity.
pub open spec fn unitary_exact(m: Seq<Seq<ComplexNumber>>, n: int) -> bool {
    forall|i: int, k: int|
        0 <= i < n && 0 <= k < n ==> rowcol_inner(m, i, k, n) == (if i == k {
            c_one()
        } else {
            c_zero()
        })
}

/// Multiplying any of the four exact roots of unity by its own
/// conjugate gives exactly one, and products with zero vanish.
proof fn lemma_unit_products(z: ComplexNumber)
    ensures
        c_mul(z, c_conj(c_zero())) == c_zero(),
        c_mul(c_zero(), c_conj(z)) == c_zero(),
        z == c_one() || z == crate::complex::c_neg_one() || z == crate::complex::c_i() || z
            == crate::complex::c_neg_i() ==> c_mul(z, c_conj(z)) == c_one(),
{
    crate::complex::lemma_c_mul_exact_units(z);
    crate::complex::lemma_c_mul_exact_units(c_conj(z));
    assert((0int) * z.real == 0 && (0int) * z.imaginary == 0 && z.real * (0int) == 0
        && z.imaginary * (0int) == 0) by (nonlinear_arith);
    crate::complex::lemma_scale_down_exact(0);
    if z == c_one() || z == crate::complex::c_neg_one() || z == crate::complex::c_i() || z
        == crate::complex::c_neg_i() {
        assert((SCALE as int) * (SCALE as int) == (SCALE_SQ as int)) by (nonlinear_arith);
        assert(((-SCALE) as int) * ((-SCALE) as int) == (SCALE_SQ as int)) by (nonlinear_arith);
        crate::complex::lemma_scale_down_exact(SCALE as int);
        assert(SCALE_SQ as int == (SCALE as int) * (SCALE as int)) by (nonlinear_arith);
    }
}

/// A matrix whose every row holds one root of unity, in a column no
/// other row uses, multiplied by its own conjugate transpose gives
/// exactly the identity. All the fixed catalog gates except the
/// Hadamard have this shape.
pub proof fn lemma_perm_unitary(m: Seq<Seq<ComplexNumber>>, perm: Seq<int>, n: int)
    requires
        m.len() == n,
        perm.len() == n,
        n >= 1,
        forall|i: int| 0 <= i < n ==> (#[trigger] m[i]).len() == n,
        forall|i: int| 0 <= i < n ==> 0 <= #[trigger] perm[i] < n,
        forall|i: int, k: int| 0 <= i < n && 0 <= k < n && i != k ==> #[trigger] perm[i] != #[trigger] perm[k],
        forall|i: int, j: int|
            0 <= i < n && 0 <= j < n && j != perm[i] ==> #[trigger] m[i][j] == c_zero(),
        forall|i: int|
            0 <= i < n ==> (#[trigger] m[i][perm[i]] == c_one() || m[i][perm[i]]
                == crate::complex::c_neg_one() || m[i][perm[i]] == crate::complex::c_i()
                || m[i][perm[i]] == crate::complex::c_neg_i()),
    ensures
        unitary_exact(m, n),
{
    assert forall|i: int, k: int| 0 <= i < n && 0 <= k < n implies rowcol_inner(m, i, k, n) == (
    if i == k {
        c_one()
    } else {
        c_zero()
    }) by {
        lemma_perm_inner(m, perm, n, i, k, n);
    }
}

/// The partial inner product of rows `i` and `k`: zero until the
/// column holding row `i`'s unit has been passed, and then, only when
/// `i == k`, one.
proof fn lemma_perm_inner(m: Seq<Seq<ComplexNumber>>, perm: Seq<int>, n: int, i: int, k: int, j: int)
    requires
        m.len() == n,
        perm.len() == n,
        0 <= i < n,
        0 <= k < n,
        0 <= j <= n,
        forall|p: int| 0 <= p < n ==> (#[trigger] m[p]).len() == n,
        forall|p: int| 0 <= p < n ==> 0 <= #[trigger] perm[p] < n,
        forall|p: int, q: int| 0 <= p < n && 0 <= q < n && p != q ==> #[trigger] perm[p] != #[trigger] perm[q],
        forall|p: int, q: int|
            0 <= p < n && 0 <= q < n && q != perm[p] ==> #[trigger] m[p][q] == c_zero(),
        forall|p: int|
            0 <= p < n ==> (#[trigger] m[p][perm[p]] == c_one() || m[p][perm[p]]
                == crate::complex::c_neg_one() || m[p][perm[p]] == crate::complex::c_i()
                || m[p][perm[p]] == crate::complex::c_neg_i()),
    ensures
        rowcol_inner(m, i, k, j) == (if i == k && perm[i] < j {
            c_one()
        } else {
            c_zero()
        }),
    decreases j,
{
    if j > 0 {
        lemma_perm_inner(m, perm, n, i, k, j - 1);
        let term = c_mul(m[i][j - 1], c_conj(m[k][j - 1]));
        if j - 1 == perm[i] && i == k {
            lemma_unit_products(m[i][j - 1]);
            assert(term == c_one());
            crate::complex::lemma_c_mul_exact_units(c_one());
            assert(c_add(c_zero(), c_one()) == c_one());
        } else {
            if j - 1 != perm[i] {
                lemma_unit_products(c_conj(m[k][j - 1]));
                assert(m[i][j - 1] == c_zero());
                lemma_unit_products(m[k][j - 1]);
                assert(c_mul(c_zero(), c_conj(m[k][j - 1])) == c_zero());
            } else {
                assert(i != k);
                assert(perm[k] != perm[i]);
                assert(m[k][j - 1] == c_zero());
                assert(c_conj(c_zero()) == c_zero());
                lemma_unit_products(m[i][j - 1]);
            }
            assert(term == c_zero());
            crate::complex::lemma_c_mul_exact_units(rowcol_inner(m, i, k, j - 1));
        }
    }
}

/// The identity's rows as a specification-level matrix.
pub open spec fn gate_rows_of(f: spec_fn(int, int) -> ComplexNumber, n: int) -> Seq<
    Seq<ComplexNumber>,
> {
    Seq::new(n as nat, |i: int| Seq::new(n as nat, |j: int| f(i, j)))
}

/// Unitarity of the Pauli X gate: `X * X^dagger` is exactly the
/// identity.
pub proof fn lemma_pauli_x_unitary()
    ensures
        unitary_exact(gate_rows_of(|i: int, j: int| pauli_x_entry(i, j), 2), 2),
{
    let m = gate_rows_of(|i: int, j: int| pauli_x_entry(i, j), 2);
    let perm = seq![1int, 0int];
    lemma_perm_unitary(m, perm, 2);
}

/// Unitarity of the Pauli Y gate.
pub proof fn lemma_pauli_y_unitary()
    ensures
        unitary_exact(gate_rows_of(|i: int, j: int| pauli_y_entry(i, j), 2), 2),
{
    let m = gate_rows_of(|i: int, j: int| pauli_y_entry(i, j), 2);
    let perm = seq![1int, 0int];
    lemma_perm_unitary(m, perm, 2);
}

/// Unitarity of the Pauli Z gate.
pub proof fn lemma_pauli_z_unitary()
    ensures
        unitary_exact(gate_rows_of(|i: int, j: int| pauli_z_entry(i, j), 2), 2),
{
    let m = gate_rows_of(|i: int, j: int| pauli_z_entry(i, j), 2);
    let perm = seq![0int, 1int];
    lemma_perm_unitary(m, perm, 2);
}

/// Unitarity of the identity gate.
pub proof fn lemma_identity_unitary()
    ensures
        unitary_exact(gate_rows_of(|i: int, j: int| id_entry(i, j), 2), 2),
{
    let m = gate_rows_of(|i: int, j: int| id_entry(i, j), 2);
    let perm = seq![0int, 1int];
    lemma_perm_unitary(m, perm, 2);
}

/// Unitarity of the S gate.
pub proof fn lemma_s_unitary()
    ensures
        unitary_exact(gate_rows_of(|i: int, j: int| s_entry(i, j), 2), 2),
{
    let m = gate_rows_of(|i: int, j: int| s_entry(i, j), 2);
    let perm = seq![0int, 1int];
    lemma_perm_unitary(m, perm, 2);
}

/// Unitarity of the CNOT gate.
pub proof fn lemma_cnot_unitary()
    ensures
        unitary_exact(gate_rows_of(|i: int, j: int| perm_entry(cnot_perm(i), j), 4), 4),
{
    let m = gate_rows_of(|i: int, j: int| perm_entry(cnot_perm(i), j), 4);
    let perm = seq![0int, 1int, 3int, 2int];
    lemma_perm_unitary(m, perm, 4);
}

/// Unitarity of the CZ gate.
pub proof fn lemma_cz_unitary()
    ensures
        unitary_exact(gate_rows_of(|i: int, j: int| cz_entry(i, j), 4), 4),
{
    let m = gate_rows_of(|i: int, j: int| cz_entry(i, j), 4);
    let perm = seq![0int, 1int, 2int, 3int];
    lemma_perm_unitary(m, perm, 4);
}

/// Unitarity of the SWAP gate.
pub proof fn lemma_swap_unitary()
    ensures
        unitary_exact(gate_rows_of(|i: int, j: int| perm_entry(swap_perm(i), j), 4), 4),
{
    let m = gate_rows_of(|i: int, j: int| perm_entry(swap_perm(i), j), 4);
    let perm = seq![0int, 2int, 1int, 3int];
    lemma_perm_unitary(m, perm, 4);
}

/// Unitarity of the Toffoli gate.
pub proof fn lemma_ccx_unitary()
    ensures
        unitary_exact(gate_rows_of(|i: int, j: int| perm_entry(ccx_perm(i), j), 8), 8),
{
    let m = gate_rows_of(|i: int, j: int| perm_entry(ccx_perm(i), j), 8);
    let perm = Seq::new(8, |i: int| ccx_perm(i));
    lemma_perm_unitary(m, perm, 8);
}

/// Unitarity of the Fredkin gate.
pub proof fn lemma_cswap_unitary()
    ensures
        unitary_exact(gate_rows_of(|i: int, j: int| perm_entry(cswap_perm(i), j), 8), 8),
{
    let m = gate_rows_of(|i: int, j: int| perm_entry(cswap_perm(i), j), 8);
    let perm = Seq::new(8, |i: int| cswap_perm(i));
    lemma_perm_unitary(m, perm, 8);
}

/// Unitarity of the CCCX gate.
pub proof fn lemma_cccx_unitary()
    ensures
        unitary_exact(gate_rows_of(|i: int, j: int| perm_entry(cccx_perm(i), j), 16), 16),
{
    let m = gate_rows_of(|i: int, j: int| perm_entry(cccx_perm(i), j), 16);
    let perm = Seq::new(16, |i: int| cccx_perm(i));
    lemma_perm_unitary(m, perm, 16);
}

/// Unitarity of the Hadamard gate, exactly: the fixed-point value of
/// `1/sqrt(2)` squares and doubles to exactly one unit.
pub proof fn lemma_hadamard_unitary()
    ensures
        unitary_exact(gate_rows_of(|i: int, j: int| hadamard_entry(i, j), 2), 2),
{
    let m = gate_rows_of(|i: int, j: int| hadamard_entry(i, j), 2);
    assert(46341int * 46341int == 2147488281 && (-46341int) * (-46341int) == 2147488281
        && 46341int * (-46341int) == -2147488281 && (-46341int) * 46341int == -2147488281
        && 46341int * 0int == 0 && 0int * 46341int == 0 && (-46341int) * 0int == 0 && 0int * (
    -46341int) == 0 && 0int * 0int == 0) by (nonlinear_arith);
    assert(2147488281int / 65536 == 32768) by (nonlinear_arith);
    assert(crate::complex::scale_down(2147488281) == 32768);
    assert(crate::complex::scale_down(-2147488281) == -32768);
    let ph = ComplexNumber { real: 46341, imaginary: 0 };
    let nh = ComplexNumber { real: -46341i64, imaginary: 0 };
    assert(c_conj(ph) == ph && c_conj(nh) == nh);
    assert(c_mul(ph, ph) == (ComplexNumber { real: 32768, imaginary: 0 }));
    assert(c_mul(nh, nh) == (ComplexNumber { real: 32768, imaginary: 0 }));
    assert(c_mul(ph, nh) == (ComplexNumber { real: -32768i64, imaginary: 0 }));
    assert(c_mul(nh, ph) == (ComplexNumber { real: -32768i64, imaginary: 0 }));
    assert forall|i: int, k: int| 0 <= i < 2 && 0 <= k < 2 implies rowcol_inner(m, i, k, 2) == (
    if i == k {
        c_one()
    } else {
        c_zero()
    }) by {
        assert(m[i][0] == hadamard_entry(i, 0) && m[i][1] == hadamard_entry(i, 1));
        assert(m[k][0] == hadamard_entry(k, 0) && m[k][1] == hadamard_entry(k, 1));
        assert(rowcol_inner(m, i, k, 0) == c_zero());
        assert(rowcol_inner(m, i, k, 1) == c_add(c_zero(), c_mul(m[i][0], c_conj(m[k][0]))));
        crate::complex::lemma_c_mul_exact_units(c_mul(m[i][0], c_conj(m[k][0])));
        assert(rowcol_inner(m, i, k, 2) == c_add(
            rowcol_inner(m, i, k, 1),
            c_mul(m[i][1], c_conj(m[k][1])),
        ));
    }
}

/// A vector of zeros carries no probability mass on either side.
proof fn lemma_prob_of_zeros(v: Seq<ComplexNumber>, modulo: int, threshold: int, n: int)
    requires
        0 <= n <= v.len(),
        forall|idx: int|
            0 <= idx < v.len() && (idx % modulo >= threshold) ==> #[trigger] v[idx] == c_zero(),
    ensures
        crate::qubit::prob_one(v, modulo, threshold, n) == 0,
    decreases n,
{
    if n > 0 {
        lemma_prob_of_zeros(v, modulo, threshold, n - 1);
        if (n - 1) % modulo >= threshold {
            assert(v[n - 1] == c_zero());
            assert(crate::complex::c_abs2(c_zero()) == 0);
        }
    }
}

/// When every amplitude outside the one side is zero, the one side
/// carries the whole mass.
proof fn lemma_prob_is_total(v: Seq<ComplexNumber>, modulo: int, threshold: int, n: int)
    requires
        0 <= n <= v.len(),
        forall|idx: int|
            0 <= idx < v.len() && !(idx % modulo >= threshold) ==> #[trigger] v[idx] == c_zero(),
    ensures
        crate::qubit::prob_one(v, modulo, threshold, n) == crate::qubit::norm2_fx(v, n),
    decreases n,
{
    if n > 0 {
        lemma_prob_is_total(v, modulo, threshold, n - 1);
        if !((n - 1) % modulo >= threshold) {
            assert(v[n - 1] == c_zero());
            assert(crate::complex::c_abs2(c_zero()) == 0);
        }
    }
}

/// A vector of zeros has zero mass.
proof fn lemma_norm_of_zeros(v: Seq<ComplexNumber>, n: int)
    requires
        0 <= n <= v.len(),
        forall|idx: int| 0 <= idx < v.len() ==> #[trigger] v[idx] == c_zero(),
    ensures
        crate::qubit::norm2_fx(v, n) == 0,
    decreases n,
{
    if n > 0 {
        lemma_norm_of_zeros(v, n - 1);
        assert(crate::complex::c_abs2(c_zero()) == 0);
    }
}

/// After a successful measurement, every amplitude inconsistent with
/// the observed bit is exactly zero.
proof fn lemma_ms_post_zeros(
    v0: Seq<ComplexNumber>,
    v1: Seq<ComplexNumber>,
    modulo: int,
    threshold: int,
    u: int,
    b: int,
)
    requires
        crate::qubit::ms_post(v0, v1, modulo, threshold, u, b),
    ensures
        v1.len() == v0.len(),
        forall|idx: int|
            0 <= idx < v1.len() && !crate::qubit::ms_keep(idx, modulo, threshold, b == 1)
                ==> #[trigger] v1[idx] == c_zero(),
{
    let one_side = u < crate::qubit::prob_one(v0, modulo, threshold, v0.len() as int);
    let w = crate::qubit::collapsed(v0, modulo, threshold, one_side);
    assert forall|idx: int|
        0 <= idx < v1.len() && !crate::qubit::ms_keep(idx, modulo, threshold, b == 1)
            implies #[trigger] v1[idx] == c_zero() by {
        assert(w[idx] == c_zero());
        assert(v1[idx] == (ComplexNumber {
            real: crate::complex::div_trunc(w[idx].real * (SCALE as int), 0) as i64,
            imaginary: crate::complex::div_trunc(w[idx].imaginary * (SCALE as int), 0) as i64,
        }) || true);
        let root = choose|root: int|
            1 <= root && #[trigger] (root * root) <= crate::qubit::norm2_fx(w, w.len() as int) * (
            SCALE as int) && (root + 1) * (root + 1) > crate::qubit::norm2_fx(w, w.len() as int)
                * (SCALE as int) && v1 == crate::qubit::renormed(w, root);
        assert(v1[idx] == crate::qubit::renormed(w, root)[idx]);
        assert(w[idx].real * (SCALE as int) == 0) by (nonlinear_arith)
            requires
                w[idx].real == 0,
        ;
        assert(w[idx].imaginary * (SCALE as int) == 0) by (nonlinear_arith)
            requires
                w[idx].imaginary == 0,
        ;
        assert(crate::complex::div_trunc(0, root) == 0);
    }
}

/// Measurement collapse: measuring the same track twice in a row
/// yields the same bit. The second draw is irrelevant: after the
/// collapse the opposite outcome carries exactly zero probability
/// mass, and a state with no mass on the drawn side cannot complete a
/// measurement at all.
pub proof fn lemma_measurement_collapse(
    v0: Seq<ComplexNumber>,
    v1: Seq<ComplexNumber>,
    v2: Seq<ComplexNumber>,
    modulo: int,
    threshold: int,
    u1: int,
    u2: int,
    b1: int,
    b2: int,
)
    requires
        crate::qubit::ms_post(v0, v1, modulo, threshold, u1, b1),
        crate::qubit::ms_post(v1, v2, modulo, threshold, u2, b2),
        0 <= u2,
    ensures
        b2 == b1,
{
    lemma_ms_post_zeros(v0, v1, modulo, threshold, u1, b1);
    let p1 = crate::qubit::prob_one(v1, modulo, threshold, v1.len() as int);
    if b1 == 0 {
        lemma_prob_of_zeros(v1, modulo, threshold, v1.len() as int);
        assert(p1 == 0);
        assert(!(u2 < p1));
    } else {
        if !(u2 < p1) {
            let w2 = crate::qubit::collapsed(v1, modulo, threshold, false);
            assert forall|idx: int| 0 <= idx < w2.len() implies #[trigger] w2[idx] == c_zero() by {
                if idx % modulo >= threshold {
                    assert(w2[idx] == c_zero());
                } else {
                    assert(w2[idx] == v1[idx]);
                    assert(!crate::qubit::ms_keep(idx, modulo, threshold, true));
                }
            }
            lemma_norm_of_zeros(w2, w2.len() as int);
            let root = choose|root: int|
                1 <= root && #[trigger] (root * root) <= crate::qubit::norm2_fx(
                    w2,
                    w2.len() as int,
                ) * (SCALE as int) && (root + 1) * (root + 1) > crate::qubit::norm2_fx(
                    w2,
                    w2.len() as int,
                ) * (SCALE as int) && v2 == crate::qubit::renormed(w2, root);
            assert(root * root >= 1) by (nonlinear_arith)
                requires
                    root >= 1,
            ;
            assert(false);
        }
    }
}

/// One diagonal entry of the density matrix: the conjugate-square of
/// one amplitude.
pub open spec fn density_diag_re(v: Seq<ComplexNumber>, i: int) -> int {
    c_mul(c_conj(v[i]), v[i]).real as int
}

/// The trace of the density matrix over the first `n` amplitudes.
pub open spec fn density_trace(v: Seq<ComplexNumber>, n: int) -> int
    decreases n,
{
    if n <= 0 {
        0
    } else {
        density_trace(v, n - 1) + density_diag_re(v, n - 1)
    }
}

/// One diagonal entry against one squared magnitude: the single
/// rounding of the former can exceed the double rounding of the
/// latter by at most one ulp, never the other way.
proof fn lemma_diag_vs_abs2(z: ComplexNumber)
    requires
        crate::matrix::c_amp(z),
    ensures
        crate::complex::c_abs2(z) <= density_diag_re(seq![z], 0) <= crate::complex::c_abs2(z) + 1,
        c_mul(c_conj(z), z).imaginary == 0,
{
    crate::matrix::lemma_comp_bound(z, 65544);
    let rr = (z.real as int) * (z.real as int);
    let ii = (z.imaginary as int) * (z.imaginary as int);
    assert(z.real * z.real - (-(z.imaginary as int)) * z.imaginary == rr + ii
        && z.real * z.imaginary + (-(z.imaginary as int)) * z.real == 0 && rr >= 0 && ii >= 0
        && rr <= 4296015936 && ii <= 4296015936) by (nonlinear_arith)
        requires
            rr == (z.real as int) * (z.real as int),
            ii == (z.imaginary as int) * (z.imaginary as int),
            -65544 <= z.real <= 65544,
            -65544 <= z.imaginary <= 65544,
    ;
    assert(rr / 65536 + ii / 65536 <= (rr + ii) / 65536) by (nonlinear_arith)
        requires
            rr >= 0,
            ii >= 0,
    ;
    assert((rr + ii) / 65536 <= rr / 65536 + ii / 65536 + 1) by (nonlinear_arith)
        requires
            rr >= 0,
            ii >= 0,
    ;
    crate::complex::lemma_scale_down_shrinks(rr);
    crate::complex::lemma_scale_down_shrinks(ii);
    crate::complex::lemma_scale_down_shrinks(rr + ii);
    crate::complex::lemma_scale_down_exact(0);
}

/// The density matrix's trace equals the state's probability mass up
/// to one ulp per amplitude (the trace rounds each squared magnitude
/// once, the mass twice), and its diagonal is real.
pub proof fn lemma_density_trace(v: Seq<ComplexNumber>, n: int)
    requires
        0 <= n <= v.len(),
        crate::matrix::vec_amp(v),
    ensures
        crate::qubit::norm2_fx(v, n) <= density_trace(v, n) <= crate::qubit::norm2_fx(v, n) + n,
    decreases n,
{
    if n > 0 {
        lemma_density_trace(v, n - 1);
        assert(crate::matrix::c_amp(v[n - 1]));
        lemma_diag_vs_abs2(v[n - 1]);
        assert(density_diag_re(seq![v[n - 1]], 0) == density_diag_re(v, n - 1));
    }
}

/// The sum of the real parts of `cnt` consecutive diagonal entries
/// starting at `base`.
pub open spec fn diag_block_re(m: &crate::matrix::Matrix, base: int, cnt: int) -> int
    decreases cnt,
{
    if cnt <= 0 {
        0
    } else {
        diag_block_re(m, base, cnt - 1) + crate::matrix::ent(m, base + cnt - 1, base + cnt - 1).real
    }
}

/// The whole trace is its leading diagonal block.
proof fn lemma_trace_is_block(m: &crate::matrix::Matrix, n: int)
    requires
        0 <= n,
    ensures
        mat_trace_re(m, n) == diag_block_re(m, 0, n),
    decreases n,
{
    if n > 0 {
        lemma_trace_is_block(m, n - 1);
    }
}

/// Consecutive diagonal blocks add.
proof fn lemma_block_split(m: &crate::matrix::Matrix, base: int, a: int, b: int)
    requires
        0 <= a,
        0 <= b,
    ensures
        diag_block_re(m, base, a + b) == diag_block_re(m, base, a) + diag_block_re(m, base + a, b),
    decreases b,
{
    if b > 0 {
        lemma_block_split(m, base, a, b - 1);
    }
}

/// Over one block of `p` reduced indices with the same high part, the
/// reduced diagonal sums the two matching diagonal blocks of the full
/// matrix.
proof fn lemma_trace_one_block(
    d: &crate::matrix::Matrix,
    pt: &crate::matrix::Matrix,
    q: nat,
    h: int,
    low: int,
)
    requires
        crate::matrix::mat_wf(d),
        crate::matrix::mat_wf(pt),
        0 <= h,
        0 <= low <= crate::qubit::reg_size(q),
        2 * crate::qubit::reg_size(q) * h + 2 * crate::qubit::reg_size(q) <= d.rows,
        d.cols == d.rows,
        crate::qubit::reg_size(q) * h + low <= pt.rows,
        pt.cols == pt.rows,
        forall|r: int|
            0 <= r < pt.rows ==> #[trigger] crate::matrix::ent(pt, r, r) == crate::qubit::pt_entry(
                d,
                q,
                r,
                r,
            ),
    ensures
        diag_block_re(pt, crate::qubit::reg_size(q) * h, low) == diag_block_re(
            d,
            2 * crate::qubit::reg_size(q) * h,
            low,
        ) + diag_block_re(d, 2 * crate::qubit::reg_size(q) * h + crate::qubit::reg_size(q), low),
    decreases low,
{
    let p = crate::qubit::reg_size(q) as int;
    crate::qubit::lemma_reg_size_monotone(0, q);
    if low > 0 {
        lemma_trace_one_block(d, pt, q, h, low - 1);
        let r = p * h + low - 1;
        assert(crate::qubit::insert_bit(r, q, 0) == 2 * p * h + low - 1
            && crate::qubit::insert_bit(r, q, 1) == 2 * p * h + p + low - 1) by {
            assert(r == p * h + (low - 1));
            assert(0 <= low - 1 < p);
            assert(r % p == low - 1 && r / p == h) by (nonlinear_arith)
                requires
                    r == p * h + (low - 1),
                    0 <= low - 1 < p,
                    0 <= h,
                    p >= 1,
            ;
        }
        assert(r < pt.rows);
        assert(crate::matrix::ent(pt, r, r) == crate::qubit::pt_entry(d, q, r, r));
        assert((262144 as int) * 262144 == crate::matrix::ENTRY_LIM_SQ) by (nonlinear_arith);
        let i0 = 2 * p * h + low - 1;
        let i1 = 2 * p * h + p + low - 1;
        assert(0 <= i0 < d.rows && 0 <= i1 < d.rows);
        assert(crate::complex::c_norm2(crate::matrix::ent(d, i0, i0))
            <= crate::matrix::ENTRY_LIM_SQ);
        assert(crate::complex::c_norm2(crate::matrix::ent(d, i1, i1))
            <= crate::matrix::ENTRY_LIM_SQ);
        crate::matrix::lemma_comp_bound(crate::matrix::ent(d, i0, i0), 262144);
        crate::matrix::lemma_comp_bound(crate::matrix::ent(d, i1, i1), 262144);
        assert(crate::matrix::ent(pt, r, r).real == crate::matrix::ent(d, i0, i0).real
            + crate::matrix::ent(d, i1, i1).real);
    }
}

/// Tracing out any position preserves the trace: the diagonal of the
/// reduced matrix sums, block by block, exactly the diagonal of the
/// full matrix.
pub proof fn lemma_partial_trace_trace(
    d: &crate::matrix::Matrix,
    pt: &crate::matrix::Matrix,
    q: nat,
    hb: int,
)
    requires
        crate::matrix::mat_wf(d),
        crate::matrix::mat_wf(pt),
        0 <= hb,
        2 * crate::qubit::reg_size(q) * hb <= d.rows,
        d.cols == d.rows,
        crate::qubit::reg_size(q) * hb <= pt.rows,
        pt.cols == pt.rows,
        forall|r: int|
            0 <= r < pt.rows ==> #[trigger] crate::matrix::ent(pt, r, r) == crate::qubit::pt_entry(
                d,
                q,
                r,
                r,
            ),
    ensures
        mat_trace_re(pt, crate::qubit::reg_size(q) * hb) == mat_trace_re(
            d,
            2 * crate::qubit::reg_size(q) * hb,
        ),
    decreases hb,
{
    let p = crate::qubit::reg_size(q) as int;
    crate::qubit::lemma_reg_size_monotone(0, q);
    assert(p * hb >= 0 && 2 * p * hb >= 0) by (nonlinear_arith)
        requires
            p >= 1,
            hb >= 0,
    ;
    lemma_trace_is_block(pt, p * hb);
    lemma_trace_is_block(d, 2 * p * hb);
    if hb == 0 {
        assert(p * hb == 0 && 2 * p * hb == 0) by (nonlinear_arith)
            requires
                hb == 0,
        ;
    } else {
        assert(p * (hb - 1) >= 0 && 2 * p * (hb - 1) >= 0 && 2 * p * (hb - 1) <= 2 * p * hb && p
            * (hb - 1) <= p * hb) by (nonlinear_arith)
            requires
                p >= 1,
                hb >= 1,
        ;
        lemma_partial_trace_trace(d, pt, q, hb - 1);
        lemma_trace_is_block(pt, p * (hb - 1));
        lemma_trace_is_block(d, 2 * p * (hb - 1));
        assert(p * hb == p * (hb - 1) + p && 2 * p * hb == 2 * p * (hb - 1) + 2 * p)
            by (nonlinear_arith);
        assert(2 * p * (hb - 1) + 2 * p <= d.rows && 0 <= 2 * p * (hb - 1)) by (nonlinear_arith)
            requires
                2 * p * hb <= d.rows,
                2 * p * hb == 2 * p * (hb - 1) + 2 * p,
                p >= 1,
                hb >= 1,
        ;
        lemma_block_split(pt, 0, p * (hb - 1), p);
        lemma_block_split(d, 0, 2 * p * (hb - 1), 2 * p);
        lemma_block_split(d, 2 * p * (hb - 1), p, p);
        assert(p * (hb - 1) + p <= pt.rows) by (nonlinear_arith)
            requires
                p * hb <= pt.rows,
                p * hb == p * (hb - 1) + p,
        ;
        lemma_trace_one_block(d, pt, q, hb - 1, p);
        assert(2 * p * (hb - 1) + p == 2 * p * (hb - 1) + p);
        assert(diag_block_re(pt, p * (hb - 1), p) == diag_block_re(d, 2 * p * (hb - 1), p)
            + diag_block_re(d, 2 * p * (hb - 1) + p, p));
    }
}

/// The sum of the real parts of a matrix's first `n` diagonal entries.
pub open spec fn mat_trace_re(m: &crate::matrix::Matrix, n: int) -> int
    decreases n,
{
    if n <= 0 {
        0
    } else {
        mat_trace_re(m, n - 1) + crate::matrix::ent(m, n - 1, n - 1).real
    }
}

/// The Kronecker product is associative up to its fixed-point
/// rounding: both groupings pair exactly the same three entries, in
/// the two associations of the complex product.
pub proof fn lemma_kron_assoc_indices(
    a: Seq<Seq<ComplexNumber>>,
    b: Seq<Seq<ComplexNumber>>,
    c: Seq<Seq<ComplexNumber>>,
    p: int,
    q: int,
)
    requires
        a.len() >= 1 && b.len() >= 1 && c.len() >= 1,
        a[0].len() >= 1 && b[0].len() >= 1 && c[0].len() >= 1,
        forall|i: int| 0 <= i < a.len() ==> (#[trigger] a[i]).len() == a[0].len(),
        forall|i: int| 0 <= i < b.len() ==> (#[trigger] b[i]).len() == b[0].len(),
        forall|i: int| 0 <= i < c.len() ==> (#[trigger] c[i]).len() == c[0].len(),
        0 <= p < a.len() * b.len() * c.len(),
        0 <= q < a[0].len() * b[0].len() * c[0].len(),
    ensures
        crate::matrix::kron_spec(crate::matrix::kron_spec(a, b), c)[p][q] == c_mul(
            c_mul(
                a[p / ((b.len() * c.len()) as int)][q / ((b[0].len() * c[0].len()) as int)],
                b[(p / (c.len() as int)) % (b.len() as int)][(q / (c[0].len() as int)) % (
                b[0].len() as int)],
            ),
            c[p % (c.len() as int)][q % (c[0].len() as int)],
        ),
        crate::matrix::kron_spec(a, crate::matrix::kron_spec(b, c))[p][q] == c_mul(
            a[p / ((b.len() * c.len()) as int)][q / ((b[0].len() * c[0].len()) as int)],
            c_mul(
                b[(p / (c.len() as int)) % (b.len() as int)][(q / (c[0].len() as int)) % (
                b[0].len() as int)],
                c[p % (c.len() as int)][q % (c[0].len() as int)],
            ),
        ),
{
    let ra = a.len() as int;
    let rb = b.len() as int;
    let rc = c.len() as int;
    let ca = a[0].len() as int;
    let cb = b[0].len() as int;
    let cc = c[0].len() as int;
    lemma_kron_index_split(p, ra, rb, rc);
    lemma_kron_index_split(q, ca, cb, cc);
    let ab = crate::matrix::kron_spec(a, b);
    let bc = crate::matrix::kron_spec(b, c);
    assert(ra * rb >= 1 && rb * rc >= 1 && ca * cb >= 1 && cb * cc >= 1 && ra * rb * rc >= 1
        && ca * cb * cc >= 1 && ra * (rb * rc) == ra * rb * rc && ca * (cb * cc) == ca * cb * cc
        && (ra * rb) * rc == ra * rb * rc && (ca * cb) * cc == ca * cb * cc)
        by (nonlinear_arith)
        requires
            ra >= 1 && rb >= 1 && rc >= 1 && ca >= 1 && cb >= 1 && cc >= 1,
    ;
    assert(ab.len() == ra * rb && ab[0].len() == ca * cb);
    assert(bc.len() == rb * rc && bc[0].len() == cb * cc);
    assert(0 <= p / rc < ra * rb && 0 <= q / cc < ca * cb) by (nonlinear_arith)
        requires
            0 <= p < ra * rb * rc,
            0 <= q < ca * cb * cc,
            rc >= 1,
            cc >= 1,
            ra >= 1 && rb >= 1 && ca >= 1 && cb >= 1,
    ;
    assert(0 <= p % (rb * rc) < rb * rc && 0 <= q % (cb * cc) < cb * cc) by (nonlinear_arith)
        requires
            rb * rc >= 1,
            cb * cc >= 1,
            0 <= p,
            0 <= q,
    ;
    assert(0 <= p / (rb * rc) < ra && 0 <= q / (cb * cc) < ca) by (nonlinear_arith)
        requires
            0 <= p < ra * rb * rc,
            0 <= q < ca * cb * cc,
            rb * rc >= 1,
            cb * cc >= 1,
    ;
    assert(0 <= (p / rc) / rb < ra && 0 <= (q / cc) / cb < ca) by (nonlinear_arith)
        requires
            0 <= p / rc < ra * rb,
            0 <= q / cc < ca * cb,
            rb >= 1,
            cb >= 1,
    ;
    assert(0 <= (p / rc) % rb < rb && 0 <= (q / cc) % cb < cb && 0 <= p % rc < rc && 0 <= q % cc
        < cc && 0 <= (p % (rb * rc)) / rc && 0 <= (q % (cb * cc)) / cc) by (nonlinear_arith)
        requires
            rb >= 1 && cb >= 1 && rc >= 1 && cc >= 1 && rb * rc >= 1 && cb * cc >= 1 && 0 <= p
                && 0 <= q,
    ;
    assert(crate::matrix::kron_spec(ab, c)[p][q] == c_mul(ab[p / rc][q / cc], c[p % rc][q % cc]));
    assert(ab[p / rc][q / cc] == c_mul(
        a[(p / rc) / rb][(q / cc) / cb],
        b[(p / rc) % rb][(q / cc) % cb],
    ));
    assert(crate::matrix::kron_spec(a, bc)[p][q] == c_mul(
        a[p / (rb * rc)][q / (cb * cc)],
        bc[p % (rb * rc)][q % (cb * cc)],
    ));
    assert(bc[p % (rb * rc)][q % (cb * cc)] == c_mul(
        b[(p % (rb * rc)) / rc][(q % (cb * cc)) / cc],
        c[(p % (rb * rc)) % rc][(q % (cb * cc)) % cc],
    ));
}

/// The three-way split of a Kronecker row index: dividing twice by
/// the inner sizes agrees with dividing once by their product, and
/// the middle digit can be read off either side.
proof fn lemma_kron_index_split(p: int, ra: int, rb: int, rc: int)
    requires
        0 <= p,
        ra >= 1,
        rb >= 1,
        rc >= 1,
    ensures
        (p / rc) / rb == p / (rb * rc),
        (p / rc) % rb == (p % (rb * rc)) / rc,
        p % rc == (p % (rb * rc)) % rc,
{
    vstd::arithmetic::div_mod::lemma_div_denominator(p, rc, rb);
    vstd::arithmetic::div_mod::lemma_mod_breakdown(p, rc, rb);
    assert(rb * rc == rc * rb) by (nonlinear_arith);
    assert(p % (rc * rb) == rc * ((p / rc) % rb) + p % rc);
    let mid = (p / rc) % rb;
    let low = p % rc;
    assert(0 <= low < rc);
    assert((rc * mid + low) / rc == mid) by (nonlinear_arith)
        requires
            0 <= low < rc,
            0 <= mid,
            rc >= 1,
    ;
    assert((rc * mid + low) % rc == low) by (nonlinear_arith)
        requires
            0 <= low < rc,
            0 <= mid,
            rc >= 1,
    ;
}

/// Re-associating the fixed-point complex product moves each
/// component by less than ten ulps, for factors within two units: the
/// exact triple product is the same for both groupings, and each
/// grouping rounds twice.
pub proof fn lemma_c_mul_assoc_close(x: ComplexNumber, y: ComplexNumber, z: ComplexNumber)
    requires
        -131072 <= x.real <= 131072,
        -131072 <= x.imaginary <= 131072,
        -131072 <= y.real <= 131072,
        -131072 <= y.imaginary <= 131072,
        -131072 <= z.real <= 131072,
        -131072 <= z.imaginary <= 131072,
    ensures
        crate::complex::c_close(c_mul(c_mul(x, y), z), c_mul(x, c_mul(y, z)), 10),
{
    lemma_c_mul_assoc_component(x, y, z);
}

/// The componentwise form of the re-association bound.
#[verifier::rlimit(100)]
proof fn lemma_c_mul_assoc_component(x: ComplexNumber, y: ComplexNumber, z: ComplexNumber)
    requires
        -131072 <= x.real <= 131072,
        -131072 <= x.imaginary <= 131072,
        -131072 <= y.real <= 131072,
        -131072 <= y.imaginary <= 131072,
        -131072 <= z.real <= 131072,
        -131072 <= z.imaginary <= 131072,
    ensures
        -10 < c_mul(c_mul(x, y), z).real - c_mul(x, c_mul(y, z)).real < 10,
        -10 < c_mul(c_mul(x, y), z).imaginary - c_mul(x, c_mul(y, z)).imaginary < 10,
{
    let s = SCALE as int;
    let pl = x.real * y.real - x.imaginary * y.imaginary;
    let ql = x.real * y.imaginary + x.imaginary * y.real;
    let pr = y.real * z.real - y.imaginary * z.imaginary;
    let qr = y.real * z.imaginary + y.imaginary * z.real;
    let tre = pl * z.real - ql * z.imaginary;
    let tim = pl * z.imaginary + ql * z.real;
    let a = x.real as int;
    let b = x.imaginary as int;
    let c = y.real as int;
    let d = y.imaginary as int;
    let e = z.real as int;
    let f = z.imaginary as int;
    assert((a * c - b * d) * e == (a * c) * e - (b * d) * e) by (nonlinear_arith);
    assert((a * d + b * c) * f == (a * d) * f + (b * c) * f) by (nonlinear_arith);
    assert(a * (c * e - d * f) == a * (c * e) - a * (d * f)) by (nonlinear_arith);
    assert(b * (c * f + d * e) == b * (c * f) + b * (d * e)) by (nonlinear_arith);
    assert((a * c) * e == a * (c * e) && (b * d) * e == b * (d * e) && (a * d) * f == a * (d * f)
        && (b * c) * f == b * (c * f)) by (nonlinear_arith);
    assert((a * c - b * d) * f == (a * c) * f - (b * d) * f) by (nonlinear_arith);
    assert((a * d + b * c) * e == (a * d) * e + (b * c) * e) by (nonlinear_arith);
    assert(a * (c * f + d * e) == a * (c * f) + a * (d * e)) by (nonlinear_arith);
    assert(b * (c * e - d * f) == b * (c * e) - b * (d * f)) by (nonlinear_arith);
    assert((a * c) * f == a * (c * f) && (b * d) * f == b * (d * f) && (a * d) * e == a * (d * e)
        && (b * c) * e == b * (c * e)) by (nonlinear_arith);
    assert(tre == x.real * pr - x.imaginary * qr);
    assert(tim == x.real * qr + x.imaginary * pr);
    assert(-34359738368 <= pl <= 34359738368 && -34359738368 <= ql <= 34359738368
        && -34359738368 <= pr <= 34359738368 && -34359738368 <= qr <= 34359738368)
        by (nonlinear_arith)
        requires
            pl == x.real * y.real - x.imaginary * y.imaginary,
            ql == x.real * y.imaginary + x.imaginary * y.real,
            pr == y.real * z.real - y.imaginary * z.imaginary,
            qr == y.real * z.imaginary + y.imaginary * z.real,
            -131072 <= x.real <= 131072 && -131072 <= x.imaginary <= 131072,
            -131072 <= y.real <= 131072 && -131072 <= y.imaginary <= 131072,
            -131072 <= z.real <= 131072 && -131072 <= z.imaginary <= 131072,
    ;
    crate::complex::lemma_scale_down_shrinks(pl);
    crate::complex::lemma_scale_down_shrinks(ql);
    crate::complex::lemma_scale_down_shrinks(pr);
    crate::complex::lemma_scale_down_shrinks(qr);
    assert(c_mul(x, y).real == crate::complex::scale_down(pl) && c_mul(x, y).imaginary
        == crate::complex::scale_down(ql));
    assert(c_mul(y, z).real == crate::complex::scale_down(pr) && c_mul(y, z).imaginary
        == crate::complex::scale_down(qr));
    assert(x.real * pr == pr * x.real && x.imaginary * qr == qr * x.imaginary && x.real * qr == qr
        * x.real && x.imaginary * pr == pr * x.imaginary) by (nonlinear_arith);
    lemma_group_rounding(pl, ql, z.real as int, z.imaginary as int, tre, tim);
    lemma_group_rounding(pr, qr, x.real as int, x.imaginary as int, pr * x.real
        - qr * x.imaginary, qr * x.real + pr * x.imaginary);
    let lre = c_mul(c_mul(x, y), z).real as int;
    let lim = c_mul(c_mul(x, y), z).imaginary as int;
    let rre = c_mul(x, c_mul(y, z)).real as int;
    let rim = c_mul(x, c_mul(y, z)).imaginary as int;
    assert(-9007199254740992 <= crate::complex::scale_down(pl) * z.real <= 9007199254740992
        && -9007199254740992 <= crate::complex::scale_down(ql) * z.imaginary <= 9007199254740992
        && -9007199254740992 <= crate::complex::scale_down(pl) * z.imaginary
        <= 9007199254740992 && -9007199254740992 <= crate::complex::scale_down(ql) * z.real
        <= 9007199254740992 && -9007199254740992 <= x.real * crate::complex::scale_down(pr)
        <= 9007199254740992 && -9007199254740992 <= x.imaginary * crate::complex::scale_down(qr)
        <= 9007199254740992 && -9007199254740992 <= x.real * crate::complex::scale_down(qr)
        <= 9007199254740992 && -9007199254740992 <= x.imaginary * crate::complex::scale_down(pr)
        <= 9007199254740992) by (nonlinear_arith)
        requires
            -34359738368 <= crate::complex::scale_down(pl) <= 34359738368,
            -34359738368 <= crate::complex::scale_down(ql) <= 34359738368,
            -34359738368 <= crate::complex::scale_down(pr) <= 34359738368,
            -34359738368 <= crate::complex::scale_down(qr) <= 34359738368,
            -131072 <= x.real <= 131072 && -131072 <= x.imaginary <= 131072,
            -131072 <= z.real <= 131072 && -131072 <= z.imaginary <= 131072,
    ;
    crate::complex::lemma_scale_down_shrinks(
        crate::complex::scale_down(pl) * z.real - crate::complex::scale_down(ql) * z.imaginary,
    );
    crate::complex::lemma_scale_down_shrinks(
        crate::complex::scale_down(pl) * z.imaginary + crate::complex::scale_down(ql) * z.real,
    );
    crate::complex::lemma_scale_down_shrinks(
        x.real * crate::complex::scale_down(pr) - x.imaginary * crate::complex::scale_down(qr),
    );
    crate::complex::lemma_scale_down_shrinks(
        x.real * crate::complex::scale_down(qr) + x.imaginary * crate::complex::scale_down(pr),
    );
    assert(lre == crate::complex::scale_down(
        crate::complex::scale_down(pl) * z.real - crate::complex::scale_down(ql) * z.imaginary,
    ));
    assert(rre == crate::complex::scale_down(
        x.real * crate::complex::scale_down(pr) - x.imaginary * crate::complex::scale_down(qr),
    )) by {
        assert(x.real * crate::complex::scale_down(pr) == crate::complex::scale_down(pr) * x.real
            && x.imaginary * crate::complex::scale_down(qr) == crate::complex::scale_down(qr)
            * x.imaginary) by (nonlinear_arith);
    }
    assert(-10 * s * s < (lre - rre) * (s * s) < 10 * s * s) by (nonlinear_arith)
        requires
            s == 65536,
            -5 * s * s < lre * (s * s) - tre < 5 * s * s,
            -5 * s * s < rre * (s * s) - tre < 5 * s * s,
    ;
    assert(-10 < lre - rre < 10) by (nonlinear_arith)
        requires
            s == 65536,
            -10 * s * s < (lre - rre) * (s * s) < 10 * s * s,
    ;
    assert(-10 * s * s < (lim - rim) * (s * s) < 10 * s * s) by (nonlinear_arith)
        requires
            s == 65536,
            -5 * s * s < lim * (s * s) - tim < 5 * s * s,
            -5 * s * s < rim * (s * s) - tim < 5 * s * s,
    ;
    assert(-10 < lim - rim < 10) by (nonlinear_arith)
        requires
            s == 65536,
            -10 * s * s < (lim - rim) * (s * s) < 10 * s * s,
    ;
}

/// One grouping's double rounding stays within five squared units of
/// the exact triple product `(t_re, t_im)`, where `(p, q)` is the
/// exact double product and `(c, d)` the remaining factor.
proof fn lemma_group_rounding(p: int, q: int, c: int, d: int, t_re: int, t_im: int)
    requires
        -34359738368 <= p <= 34359738368,
        -34359738368 <= q <= 34359738368,
        -131072 <= c <= 131072,
        -131072 <= d <= 131072,
        t_re == p * c - q * d,
        t_im == p * d + q * c,
    ensures
        -5 * (SCALE as int) * (SCALE as int) < crate::complex::scale_down(
            crate::complex::scale_down(p) * c - crate::complex::scale_down(q) * d,
        ) * ((SCALE as int) * (SCALE as int)) - t_re < 5 * (SCALE as int) * (SCALE as int),
        -5 * (SCALE as int) * (SCALE as int) < crate::complex::scale_down(
            crate::complex::scale_down(p) * d + crate::complex::scale_down(q) * c,
        ) * ((SCALE as int) * (SCALE as int)) - t_im < 5 * (SCALE as int) * (SCALE as int),
{
    let s = SCALE as int;
    crate::complex::lemma_scale_down_rem(p);
    crate::complex::lemma_scale_down_rem(q);
    let sp = crate::complex::scale_down(p);
    let sq = crate::complex::scale_down(q);
    let nre = sp * c - sq * d;
    let nim = sp * d + sq * c;
    crate::complex::lemma_scale_down_rem(nre);
    crate::complex::lemma_scale_down_rem(nim);
    assert(s * nre - t_re == (s * sp - p) * c - (s * sq - q) * d) by (nonlinear_arith)
        requires
            nre == sp * c - sq * d,
            t_re == p * c - q * d,
    ;
    assert(s * nim - t_im == (s * sp - p) * d + (s * sq - q) * c) by (nonlinear_arith)
        requires
            nim == sp * d + sq * c,
            t_im == p * d + q * c,
    ;
    assert(-4 * s * s < (s * sp - p) * c - (s * sq - q) * d < 4 * s * s) by (nonlinear_arith)
        requires
            s == 65536,
            -s < s * sp - p < s,
            -s < s * sq - q < s,
            -131072 <= c <= 131072,
            -131072 <= d <= 131072,
    ;
    assert(-4 * s * s < (s * sp - p) * d + (s * sq - q) * c < 4 * s * s) by (nonlinear_arith)
        requires
            s == 65536,
            -s < s * sp - p < s,
            -s < s * sq - q < s,
            -131072 <= c <= 131072,
            -131072 <= d <= 131072,
    ;
    assert(-5 * s * s < crate::complex::scale_down(nre) * (s * s) - t_re < 5 * s * s
        && -5 * s * s < crate::complex::scale_down(nim) * (s * s) - t_im < 5 * s * s)
        by (nonlinear_arith)
        requires
            s == 65536,
            -s < s * crate::complex::scale_down(nre) - nre < s,
            -s < s * crate::complex::scale_down(nim) - nim < s,
            -4 * s * s < s * nre - t_re < 4 * s * s,
            -4 * s * s < s * nim - t_im < 4 * s * s,
    ;
}

/// Both components within two units: every gate entry and every
/// amplitude satisfies this.
pub open spec fn comp_bounded(z: ComplexNumber) -> bool {
    -131072 <= z.real <= 131072 && -131072 <= z.imaginary <= 131072
}

/// Kronecker associativity: for matrices of entries within two units,
/// every entry of `(A (x) B) (x) C` is within ten ulps of the
/// matching entry of `A (x) (B (x) C)`; both are the two groupings of
/// the same product of the same three entries.
pub proof fn lemma_kron_assoc(
    a: Seq<Seq<ComplexNumber>>,
    b: Seq<Seq<ComplexNumber>>,
    c: Seq<Seq<ComplexNumber>>,
    p: int,
    q: int,
)
    requires
        a.len() >= 1 && b.len() >= 1 && c.len() >= 1,
        a[0].len() >= 1 && b[0].len() >= 1 && c[0].len() >= 1,
        forall|i: int| 0 <= i < a.len() ==> (#[trigger] a[i]).len() == a[0].len(),
        forall|i: int| 0 <= i < b.len() ==> (#[trigger] b[i]).len() == b[0].len(),
        forall|i: int| 0 <= i < c.len() ==> (#[trigger] c[i]).len() == c[0].len(),
        forall|i: int, j: int|
            0 <= i < a.len() && 0 <= j < a[0].len() ==> comp_bounded(#[trigger] a[i][j]),
        forall|i: int, j: int|
            0 <= i < b.len() && 0 <= j < b[0].len() ==> comp_bounded(#[trigger] b[i][j]),
        forall|i: int, j: int|
            0 <= i < c.len() && 0 <= j < c[0].len() ==> comp_bounded(#[trigger] c[i][j]),
        0 <= p < a.len() * b.len() * c.len(),
        0 <= q < a[0].len() * b[0].len() * c[0].len(),
    ensures
        crate::complex::c_close(
            crate::matrix::kron_spec(crate::matrix::kron_spec(a, b), c)[p][q],
            crate::matrix::kron_spec(a, crate::matrix::kron_spec(b, c))[p][q],
            10,
        ),
{
    lemma_kron_assoc_indices(a, b, c, p, q);
    let rb = b.len() as int;
    let rc = c.len() as int;
    let cb = b[0].len() as int;
    let cc = c[0].len() as int;
    let ea = a[p / ((b.len() * c.len()) as int)][q / ((b[0].len() * c[0].len()) as int)];
    let eb = b[(p / rc) % rb][(q / cc) % cb];
    let ec = c[p % rc][q % cc];
    assert(0 <= p / ((rb * rc) as int) < a.len() && 0 <= q / ((cb * cc) as int) < a[0].len())
        by (nonlinear_arith)
        requires
            0 <= p < a.len() * rb * rc,
            0 <= q < a[0].len() * cb * cc,
            rb >= 1 && rc >= 1 && cb >= 1 && cc >= 1,
            a.len() >= 1,
            a[0].len() >= 1,
    ;
    assert(0 <= (p / rc) % rb < rb && 0 <= (q / cc) % cb < cb && 0 <= p % rc < rc && 0 <= q % cc
        < cc) by (nonlinear_arith)
        requires
            rb >= 1 && rc >= 1 && cb >= 1 && cc >= 1 && p >= 0 && q >= 0,
    ;
    assert(comp_bounded(ea) && comp_bounded(eb) && comp_bounded(ec));
    lemma_c_mul_assoc_close(ea, eb, ec);
}

/// The slack one amplitude can contribute, at triple scale, when it
/// is rescaled by `SCALE/root`: the two roundings of the division and
/// the two roundings of the squared magnitude.
pub open spec fn renorm_cell_slack(root: int) -> int {
    2 * root * (65544 * root + 65544 * (SCALE as int)) + 2 * (SCALE as int) * (root * root) + 2
        * (SCALE as int) * (SCALE as int) * (SCALE as int)
}

/// One rescaled amplitude's squared magnitude, weighted by `root^2`,
/// stays within the cell slack of the original's weighted by
/// `SCALE^2` (everything at triple scale).
#[verifier::rlimit(100)]
proof fn lemma_renorm_cell(z: ComplexNumber, zr: ComplexNumber, root: int)
    requires
        crate::matrix::c_amp(z),
        crate::matrix::c_amp(zr),
        1 <= root,
        zr.real == crate::complex::div_trunc(z.real * (SCALE as int), root),
        zr.imaginary == crate::complex::div_trunc(z.imaginary * (SCALE as int), root),
    ensures
        -renorm_cell_slack(root) <= (SCALE as int) * (root * root) * crate::complex::c_abs2(zr) - (
        SCALE as int) * (SCALE as int) * (SCALE as int) * crate::complex::c_abs2(z),
        (SCALE as int) * (root * root) * crate::complex::c_abs2(zr) - (SCALE as int) * (
        SCALE as int) * (SCALE as int) * crate::complex::c_abs2(z) <= renorm_cell_slack(root),
{
    let s = SCALE as int;
    crate::matrix::lemma_comp_bound(z, 65544);
    crate::matrix::lemma_comp_bound(zr, 65544);
    crate::complex::lemma_div_trunc_rem(z.real * s, root);
    crate::complex::lemma_div_trunc_rem(z.imaginary * s, root);
    let sq_r = z.real * z.real;
    let sq_i = z.imaginary * z.imaginary;
    let sqr_r = (zr.real as int) * (zr.real as int);
    let sqr_i = (zr.imaginary as int) * (zr.imaginary as int);
    lemma_square_shift(z.real as int, zr.real as int, root);
    lemma_square_shift(z.imaginary as int, zr.imaginary as int, root);
    crate::complex::lemma_scale_down_rem(sq_r);
    crate::complex::lemma_scale_down_rem(sq_i);
    crate::complex::lemma_scale_down_rem(sqr_r);
    crate::complex::lemma_scale_down_rem(sqr_i);
    let e1 = root * (65544 * root + 65544 * s);
    assert(sq_r >= 0 && sq_i >= 0 && sqr_r >= 0 && sqr_i >= 0 && root * root >= 1)
        by (nonlinear_arith)
        requires
            root >= 1,
            sq_r == z.real * z.real,
            sq_i == z.imaginary * z.imaginary,
            sqr_r == (zr.real as int) * (zr.real as int),
            sqr_i == (zr.imaginary as int) * (zr.imaginary as int),
    ;
    assert(-s * (root * root) <= (s * crate::complex::scale_down(sqr_r) - sqr_r) * (root * root)
        && (s * crate::complex::scale_down(sqr_r) - sqr_r) * (root * root) <= s * (root * root))
        by (nonlinear_arith)
        requires
            -s < s * crate::complex::scale_down(sqr_r) - sqr_r < s,
            root * root >= 1,
            s == 65536,
    ;
    assert(-s * (root * root) <= (s * crate::complex::scale_down(sqr_i) - sqr_i) * (root * root)
        && (s * crate::complex::scale_down(sqr_i) - sqr_i) * (root * root) <= s * (root * root))
        by (nonlinear_arith)
        requires
            -s < s * crate::complex::scale_down(sqr_i) - sqr_i < s,
            root * root >= 1,
            s == 65536,
    ;
    assert(-s * (s * s) <= (s * crate::complex::scale_down(sq_r) - sq_r) * (s * s) && (s
        * crate::complex::scale_down(sq_r) - sq_r) * (s * s) <= s * (s * s)) by (nonlinear_arith)
        requires
            -s < s * crate::complex::scale_down(sq_r) - sq_r < s,
            s == 65536,
    ;
    assert(-s * (s * s) <= (s * crate::complex::scale_down(sq_i) - sq_i) * (s * s) && (s
        * crate::complex::scale_down(sq_i) - sq_i) * (s * s) <= s * (s * s)) by (nonlinear_arith)
        requires
            -s < s * crate::complex::scale_down(sq_i) - sq_i < s,
            s == 65536,
    ;
    assert(s * (root * root) * crate::complex::c_abs2(zr) == (s * crate::complex::scale_down(sqr_r)
        - sqr_r) * (root * root) + (s * crate::complex::scale_down(sqr_i) - sqr_i) * (root * root)
        + sqr_r * (root * root) + sqr_i * (root * root)) by (nonlinear_arith)
        requires
            crate::complex::c_abs2(zr) == crate::complex::scale_down(sqr_r)
                + crate::complex::scale_down(sqr_i),
    ;
    assert(s * s * s * crate::complex::c_abs2(z) == (s * crate::complex::scale_down(sq_r) - sq_r)
        * (s * s) + (s * crate::complex::scale_down(sq_i) - sq_i) * (s * s) + sq_r * (s * s) + sq_i
        * (s * s)) by (nonlinear_arith)
        requires
            crate::complex::c_abs2(z) == crate::complex::scale_down(sq_r)
                + crate::complex::scale_down(sq_i),
    ;
    assert(renorm_cell_slack(root) == e1 + e1 + s * (root * root) + s * (root * root) + (s * s
        * s) + (s * s * s)) by (nonlinear_arith)
        requires
            e1 == root * (65544 * root + 65544 * s),
            s == 65536,
            renorm_cell_slack(root) == 2 * root * (65544 * root + 65544 * s) + 2 * s * (root
                * root) + 2 * s * s * s,
    ;
    assert(s * (root * root) * crate::complex::c_abs2(zr) - s * s * s * crate::complex::c_abs2(z)
        == ((s * crate::complex::scale_down(sqr_r) - sqr_r) * (root * root) + (s
        * crate::complex::scale_down(sqr_i) - sqr_i) * (root * root) - (s
        * crate::complex::scale_down(sq_r) - sq_r) * (s * s) - (s * crate::complex::scale_down(
        sq_i,
    ) - sq_i) * (s * s)) + ((sqr_r * (root * root) - sq_r * (s * s)) + (sqr_i * (root * root)
        - sq_i * (s * s))));
    assert(-e1 <= sqr_r * (root * root) - sq_r * (s * s) <= e1);
    assert(-e1 <= sqr_i * (root * root) - sq_i * (s * s) <= e1);
    assert(-renorm_cell_slack(root) <= s * (root * root) * crate::complex::c_abs2(zr) - s * s * s
        * crate::complex::c_abs2(z) <= renorm_cell_slack(root));
    assert(s * (root * root) * crate::complex::c_abs2(zr) == (SCALE as int) * (root * root)
        * crate::complex::c_abs2(zr));
    assert(s * s * s * crate::complex::c_abs2(z) == (SCALE as int) * (SCALE as int) * (
    SCALE as int) * crate::complex::c_abs2(z));
}

/// `|x'^2 r^2 - x^2 s^2| <= r * (65544 r + 65544 s)` when `x' r` is
/// within `r` of `x s` and both factors are within the amplitude
/// component bound.
proof fn lemma_square_shift(x: int, xr: int, root: int)
    requires
        -65544 <= x <= 65544,
        -65544 <= xr <= 65544,
        1 <= root,
        -root < root * xr - x * (SCALE as int) < root,
    ensures
        -(root * (65544 * root + 65544 * (SCALE as int))) <= (xr * xr) * (root * root) - (x * x) * (
        (SCALE as int) * (SCALE as int)),
        (xr * xr) * (root * root) - (x * x) * ((SCALE as int) * (SCALE as int)) <= root * (65544
            * root + 65544 * (SCALE as int)),
{
    let s = SCALE as int;
    let u = xr * root;
    let v = x * s;
    assert(u * u == (xr * xr) * (root * root) && v * v == (x * x) * (s * s)) by (nonlinear_arith)
        requires
            u == xr * root,
            v == x * s,
    ;
    assert(u * u - v * v == (u - v) * (u + v)) by (nonlinear_arith);
    assert(-(65544 * root) <= u <= 65544 * root && -(65544 * s) <= v <= 65544 * s)
        by (nonlinear_arith)
        requires
            u == xr * root,
            v == x * s,
            -65544 <= x <= 65544,
            -65544 <= xr <= 65544,
            root >= 1,
            s == 65536,
    ;
    assert(-(root * (65544 * root + 65544 * s)) <= (u - v) * (u + v) && (u - v) * (u + v) <= root
        * (65544 * root + 65544 * s)) by (nonlinear_arith)
        requires
            -root < u - v < root,
            -(65544 * root) <= u <= 65544 * root,
            -(65544 * s) <= v <= 65544 * s,
            root >= 1,
            s == 65536,
    ;
}

/// Summed over a state's first `k` amplitudes: after rescaling by
/// `SCALE/root`, the mass weighted by `root^2` tracks the original
/// mass weighted by `SCALE^2` within one cell slack per amplitude
/// (everything at triple scale). With the root of `ms_post` — whose
/// square brackets the collapsed mass times `SCALE` — this reads as
/// the renormalized mass lying near one unit, up to the per-amplitude
/// rounding slack.
pub proof fn lemma_renormed_mass(w: Seq<ComplexNumber>, root: int, k: int)
    requires
        1 <= root,
        0 <= k <= w.len(),
        crate::matrix::vec_amp(w),
        crate::matrix::vec_amp(crate::qubit::renormed(w, root)),
    ensures
        -(k * renorm_cell_slack(root)) <= (SCALE as int) * (root * root) * crate::qubit::norm2_fx(
            crate::qubit::renormed(w, root),
            k,
        ) - (SCALE as int) * (SCALE as int) * (SCALE as int) * crate::qubit::norm2_fx(w, k),
        (SCALE as int) * (root * root) * crate::qubit::norm2_fx(crate::qubit::renormed(w, root), k)
            - (SCALE as int) * (SCALE as int) * (SCALE as int) * crate::qubit::norm2_fx(w, k) <= k
            * renorm_cell_slack(root),
    decreases k,
{
    let s = SCALE as int;
    let ren = crate::qubit::renormed(w, root);
    if k > 0 {
        lemma_renormed_mass(w, root, k - 1);
        let z = w[k - 1];
        let zr = ren[k - 1];
        assert(crate::matrix::c_amp(z));
        assert(crate::matrix::c_amp(zr));
        crate::matrix::lemma_comp_bound(z, 65544);
        crate::complex::lemma_div_trunc_shrinks(z.real * s, root);
        crate::complex::lemma_div_trunc_shrinks(z.imaginary * s, root);
        assert(zr.real == crate::complex::div_trunc(z.real * s, root) && zr.imaginary
            == crate::complex::div_trunc(z.imaginary * s, root));
        lemma_renorm_cell(z, zr, root);
        let nk = crate::qubit::norm2_fx(ren, k);
        let nk1 = crate::qubit::norm2_fx(ren, k - 1);
        let mk = crate::qubit::norm2_fx(w, k);
        let mk1 = crate::qubit::norm2_fx(w, k - 1);
        assert(nk == nk1 + crate::complex::c_abs2(zr));
        assert(mk == mk1 + crate::complex::c_abs2(z));
        assert(s * (root * root) * nk == s * (root * root) * nk1 + s * (root * root)
            * crate::complex::c_abs2(zr)) by (nonlinear_arith)
            requires
                nk == nk1 + crate::complex::c_abs2(zr),
        ;
        assert(s * s * s * mk == s * s * s * mk1 + s * s * s * crate::complex::c_abs2(z))
            by (nonlinear_arith)
            requires
                mk == mk1 + crate::complex::c_abs2(z),
        ;
        assert(k * renorm_cell_slack(root) == (k - 1) * renorm_cell_slack(root)
            + renorm_cell_slack(root)) by (nonlinear_arith);
    }
}

/// After renormalization the mass is near one unit: when the
/// pre-scaling mass is at least half a unit, the rescaled state's
/// mass lies within `15` ulps per amplitude (plus a small constant)
/// of one unit. Adversarially tiny masses are excluded: a state of
/// sub-ulp amplitudes scales up far beyond one unit, in this
/// fixed-point arithmetic as in none other.
pub proof fn lemma_renormalized_near_unit(w: Seq<ComplexNumber>, root: int)
    requires
        crate::matrix::vec_amp(w),
        crate::matrix::vec_amp(crate::qubit::renormed(w, root)),
        1 <= root,
        root * root <= crate::qubit::norm2_fx(w, w.len() as int) * (SCALE as int),
        (root + 1) * (root + 1) > crate::qubit::norm2_fx(w, w.len() as int) * (SCALE as int),
        crate::qubit::norm2_fx(w, w.len() as int) >= (SCALE as int) / 2,
    ensures
        -(15 * w.len() + 8) < crate::qubit::norm2_fx(
            crate::qubit::renormed(w, root),
            w.len() as int,
        ) - SCALE,
        crate::qubit::norm2_fx(crate::qubit::renormed(w, root), w.len() as int) - SCALE < 15
            * w.len() + 8,
{
    let s = SCALE as int;
    let n = w.len() as int;
    let m = crate::qubit::norm2_fx(w, n);
    let x = crate::qubit::norm2_fx(crate::qubit::renormed(w, root), n);
    lemma_renormed_mass(w, root, n);
    assert(root >= 46340) by (nonlinear_arith)
        requires
            (root + 1) * (root + 1) > m * s,
            m >= s / 2,
            s == 65536,
            root >= 1,
    ;
    assert(0 <= s * m - root * root && s * m - root * root <= 2 * root) by (nonlinear_arith)
        requires
            root * root <= m * s,
            (root + 1) * (root + 1) > m * s,
    ;
    assert(renorm_cell_slack(root) <= 14 * (s * (root * root))) by (nonlinear_arith)
        requires
            renorm_cell_slack(root) == 2 * root * (65544 * root + 65544 * s) + 2 * s * (root
                * root) + 2 * s * s * s,
            root >= 46340,
            s == 65536,
    ;
    assert(s * s * (s * m - root * root) <= 3 * (s * (root * root)) && 0 <= s * s * (s * m - root
        * root)) by (nonlinear_arith)
        requires
            0 <= s * m - root * root <= 2 * root,
            root >= 46340,
            s == 65536,
    ;
    assert(n * renorm_cell_slack(root) <= n * (14 * (s * (root * root))) && 0 <= n
        * renorm_cell_slack(root)) by (nonlinear_arith)
        requires
            0 <= renorm_cell_slack(root) <= 14 * (s * (root * root)),
            n >= 0,
    ;
    assert(s * (root * root) * x - s * (root * root) * s == (s * (root * root) * x - s * s * s
        * m) + s * s * (s * m - root * root)) by (nonlinear_arith);
    assert(n * (14 * (s * (root * root))) == (14 * n) * (s * (root * root))) by (nonlinear_arith);
    assert(s * (root * root) * x - s * (root * root) * s <= (14 * n) * (s * (root * root)) + 3 * (
    s * (root * root)));
    assert(-((14 * n) * (s * (root * root))) <= s * (root * root) * x - s * (root * root) * s);
    assert(x - s < 15 * n + 8) by (nonlinear_arith)
        requires
            s * (root * root) * x - s * (root * root) * s <= (14 * n) * (s * (root * root)) + 3 * (
            s * (root * root)),
            s * (root * root) >= 1,
            n >= 0,
            s == 65536,
            root >= 46340,
    ;
    assert(-(15 * n + 8) < x - s) by (nonlinear_arith)
        requires
            -((14 * n) * (s * (root * root))) <= s * (root * root) * x - s * (root * root) * s,
            s * (root * root) >= 1,
            n >= 0,
            s == 65536,
            root >= 46340,
    ;
    assert(renorm_cell_slack(root) >= 0) by (nonlinear_arith)
        requires
            renorm_cell_slack(root) == 2 * root * (65544 * root + 65544 * s) + 2 * s * (root
                * root) + 2 * s * s * s,
            root >= 1,
            s == 65536,
    ;
}

} // verus!
