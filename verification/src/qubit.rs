use vstd::prelude::*;

use crate::complex::{
    c_abs2, c_add, c_close, c_mul, c_norm2, c_unit, ComplexNumber, EPS, SCALE, SCALE_SQ,
};
use crate::matrix::{
    c_amp, ent, kron_spec, mat_unit, mat_view, mat_wf, vec_amp, AMP_LIM_SQ, ENTRY_LIM_SQ, Matrix,
};
use crate::gates::Gate;

verus! {

/// What can go wrong in the simulator: a gate whose size does not
/// match the register, a gate dropped where it cannot fit, a state
/// whose total probability has left the unit sphere, and a system
/// built from no qubits.
#[derive(Clone, Copy, Debug, PartialEq, Eq, Structural)]
pub enum SimError {
    DimensionMismatch,
    OversizedGate,
    NonNormalState,
    EmptyInit,
}

/// One basis factor: the pair `(a, b)` of amplitudes for `|0>` and
/// `|1>`.
#[derive(Clone, Copy, Debug)]
pub struct Qubit {
    pub a: ComplexNumber,
    pub b: ComplexNumber,
}

/// Both amplitudes have modulus at most one unit.
pub open spec fn qubit_unit(q: Qubit) -> bool {
    c_unit(q.a) && c_unit(q.b)
}

impl Qubit {
    pub fn new(a: ComplexNumber, b: ComplexNumber) -> (r: Self)
        ensures
            r.a == a,
            r.b == b,
    {
        Qubit { a, b }
    }

    /// The ket `|1>`.
    pub fn one() -> (r: Self)
        ensures
            r.a == crate::complex::c_zero(),
            r.b == crate::complex::c_one(),
            qubit_unit(r),
    {
        let r = Qubit { a: ComplexNumber::zero(), b: ComplexNumber::one() };
        proof {
            lemma_basis_unit();
        }
        r
    }

    /// The ket `|0>`.
    pub fn zero() -> (r: Self)
        ensures
            r.a == crate::complex::c_one(),
            r.b == crate::complex::c_zero(),
            qubit_unit(r),
    {
        let r = Qubit { a: ComplexNumber::one(), b: ComplexNumber::zero() };
        proof {
            lemma_basis_unit();
        }
        r
    }

    /// Whether `|a|^2 + |b|^2` is within the tolerance of one.
    pub fn is_normal(&self) -> (r: bool)
        requires
            c_norm2(self.a) <= ENTRY_LIM_SQ,
            c_norm2(self.b) <= ENTRY_LIM_SQ,
        ensures
            r == (-EPS < c_abs2(self.a) + c_abs2(self.b) - SCALE < EPS),
    {
        let total: i64 = self.abs_squared();
        -EPS < total - SCALE && total - SCALE < EPS
    }

    /// `|a|^2 + |b|^2`, a scaled real.
    pub fn abs_squared(&self) -> (r: i64)
        requires
            c_norm2(self.a) <= ENTRY_LIM_SQ,
            c_norm2(self.b) <= ENTRY_LIM_SQ,
        ensures
            r == c_abs2(self.a) + c_abs2(self.b),
            0 <= r,
    {
        self.a.abs_squared() + self.b.abs_squared()
    }

    /// Applies a 2x2 matrix: the new pair is the matrix-vector product.
    pub fn dot_matrix(&self, matrix: Matrix) -> (r: Self)
        requires
            mat_wf(&matrix),
            matrix.rows == 2,
            matrix.cols == 2,
            c_norm2(self.a) <= AMP_LIM_SQ,
            c_norm2(self.b) <= AMP_LIM_SQ,
        ensures
            r.a == c_add(c_mul(ent(&matrix, 0, 0), self.a), c_mul(ent(&matrix, 0, 1), self.b)),
            r.b == c_add(c_mul(ent(&matrix, 1, 0), self.a), c_mul(ent(&matrix, 1, 1), self.b)),
    {
        proof {
            crate::matrix::lemma_mul_fits(ent(&matrix, 0, 0), self.a);
            crate::matrix::lemma_mul_fits(ent(&matrix, 0, 1), self.b);
            crate::matrix::lemma_mul_fits(ent(&matrix, 1, 0), self.a);
            crate::matrix::lemma_mul_fits(ent(&matrix, 1, 1), self.b);
        }
        let a: ComplexNumber = matrix.get(0, 0).mul(self.a).add(matrix.get(0, 1).mul(self.b));
        let b: ComplexNumber = matrix.get(1, 0).mul(self.a).add(matrix.get(1, 1).mul(self.b));
        Qubit { a, b }
    }

    /// The Hadamard gate: puts a basis qubit into even superposition.
    pub fn hadamard(&self) -> (r: Self)
        requires
            c_norm2(self.a) <= AMP_LIM_SQ,
            c_norm2(self.b) <= AMP_LIM_SQ,
        ensures
            r.a == c_add(
                c_mul(crate::gates::hadamard_entry(0, 0), self.a),
                c_mul(crate::gates::hadamard_entry(0, 1), self.b),
            ),
            r.b == c_add(
                c_mul(crate::gates::hadamard_entry(1, 0), self.a),
                c_mul(crate::gates::hadamard_entry(1, 1), self.b),
            ),
    {
        self.dot_matrix(Matrix::hadamard())
    }

    /// The Pauli X gate swaps the two amplitudes, exactly.
    pub fn pauli_x(&self) -> (r: Self)
        requires
            c_norm2(self.a) <= AMP_LIM_SQ,
            c_norm2(self.b) <= AMP_LIM_SQ,
        ensures
            r.a == self.b,
            r.b == self.a,
    {
        let r = self.dot_matrix(Matrix::pauli_x());
        proof {
            crate::complex::lemma_c_mul_exact_units(self.a);
            crate::complex::lemma_c_mul_exact_units(self.b);
        }
        r
    }

    /// The Pauli Y gate: `a' = -i*b`, `b' = i*a`, exactly.
    pub fn pauli_y(&self) -> (r: Self)
        requires
            c_norm2(self.a) <= AMP_LIM_SQ,
            c_norm2(self.b) <= AMP_LIM_SQ,
        ensures
            r.a == (ComplexNumber { real: self.b.imaginary, imaginary: (-self.b.real) as i64 }),
            r.b == (ComplexNumber { real: (-self.a.imaginary) as i64, imaginary: self.a.real }),
    {
        let r = self.dot_matrix(Matrix::pauli_y());
        proof {
            crate::complex::lemma_c_mul_exact_units(self.a);
            crate::complex::lemma_c_mul_exact_units(self.b);
        }
        r
    }

    /// The Pauli Z gate negates the `|1>` amplitude, exactly.
    pub fn pauli_z(&self) -> (r: Self)
        requires
            c_norm2(self.a) <= AMP_LIM_SQ,
            c_norm2(self.b) <= AMP_LIM_SQ,
        ensures
            r.a == self.a,
            r.b == (ComplexNumber {
                real: (-self.b.real) as i64,
                imaginary: (-self.b.imaginary) as i64,
            }),
    {
        let r = self.dot_matrix(Matrix::pauli_z());
        proof {
            crate::complex::lemma_c_mul_exact_units(self.a);
            crate::complex::lemma_c_mul_exact_units(self.b);
        }
        r
    }

    /// The phase gate `P(theta)`: keeps `a` and multiplies `b` by a
    /// unit-modulus cell near `e^(i*theta)`.
    pub fn phase(&self, theta: i64) -> (r: Self)
        requires
            -crate::trig::THETA_LIM <= theta <= crate::trig::THETA_LIM,
            c_norm2(self.a) <= AMP_LIM_SQ,
            c_norm2(self.b) <= AMP_LIM_SQ,
        ensures
            r.a == self.a,
            exists|cell: ComplexNumber|
                crate::gates::rot_cell(cell, theta as int) && r.b == c_mul(cell, self.b),
    {
        let m = Matrix::phase(theta);
        let ghost cell = ent(&m, 1, 1);
        let r = self.dot_matrix(m);
        proof {
            crate::complex::lemma_c_mul_exact_units(self.a);
            crate::complex::lemma_c_mul_exact_units(self.b);
            crate::complex::lemma_c_mul_exact_units(c_mul(cell, self.b));
        }
        r
    }

    /// One of the square roots of the Pauli X gate, unscaled as the
    /// matrix `[[1+i, 1-i], [1-i, 1+i]]`.
    pub fn sqr_x(&self) -> (r: Self)
        requires
            c_norm2(self.a) <= AMP_LIM_SQ,
            c_norm2(self.b) <= AMP_LIM_SQ,
        ensures
            r.a == c_add(
                c_mul(ComplexNumber { real: SCALE, imaginary: SCALE }, self.a),
                c_mul(ComplexNumber { real: SCALE, imaginary: (-SCALE) as i64 }, self.b),
            ),
            r.b == c_add(
                c_mul(ComplexNumber { real: SCALE, imaginary: (-SCALE) as i64 }, self.a),
                c_mul(ComplexNumber { real: SCALE, imaginary: SCALE }, self.b),
            ),
    {
        let pp: ComplexNumber = ComplexNumber::new(SCALE, SCALE);
        let pm: ComplexNumber = ComplexNumber::new(SCALE, -SCALE);
        let mut row0: Vec<ComplexNumber> = Vec::new();
        row0.push(pp);
        row0.push(pm);
        let mut row1: Vec<ComplexNumber> = Vec::new();
        row1.push(pm);
        row1.push(pp);
        let mut value: Vec<Vec<ComplexNumber>> = Vec::new();
        value.push(row0);
        value.push(row1);
        proof {
            assert(c_norm2(pp) <= ENTRY_LIM_SQ && c_norm2(pm) <= ENTRY_LIM_SQ)
                by (nonlinear_arith)
                requires
                    pp.real == SCALE && pp.imaginary == SCALE && pm.real == SCALE
                        && pm.imaginary == -SCALE,
            ;
        }
        let x = Matrix { value, rows: 2, cols: 2 };
        self.dot_matrix(x)
    }

    /// The two amplitudes of this qubit followed by those of `other`.
    pub fn entangle(&self, other: &Qubit) -> (r: Vec<ComplexNumber>)
        ensures
            r@ == seq![self.a, self.b, other.a, other.b],
    {
        let mut r: Vec<ComplexNumber> = Vec::new();
        r.push(self.a);
        r.push(self.b);
        r.push(other.a);
        r.push(other.b);
        proof {
            assert(r@ =~= seq![self.a, self.b, other.a, other.b]);
        }
        r
    }

    /// The amplitudes as a vector of length two.
    pub fn as_vec(&self) -> (r: Vec<ComplexNumber>)
        ensures
            r@ == seq![self.a, self.b],
    {
        let mut r: Vec<ComplexNumber> = Vec::new();
        r.push(self.a);
        r.push(self.b);
        proof {
            assert(r@ =~= seq![self.a, self.b]);
        }
        r
    }
}

impl PartialEq for Qubit {
    /// Approximate equality: both amplitudes within the tolerance.
    fn eq(&self, other: &Self) -> (r: bool) {
        self.a == other.a && self.b == other.b
    }
}

impl vstd::std_specs::cmp::PartialEqSpecImpl for Qubit {
    open spec fn obeys_eq_spec() -> bool {
        true
    }

    open spec fn eq_spec(&self, other: &Qubit) -> bool {
        c_close(self.a, other.a, EPS as int) && c_close(self.b, other.b, EPS as int)
    }
}

/// The basis amplitudes zero and one are units.
proof fn lemma_basis_unit()
    ensures
        c_unit(crate::complex::c_zero()),
        c_unit(crate::complex::c_one()),
{
    assert((SCALE as int) * (SCALE as int) == SCALE_SQ && 0int * 0int == 0) by (nonlinear_arith);
}

/// The Kronecker product of two amplitude vectors: entry `k` is
/// `t1[k / |t2|] * t2[k % |t2|]`.
pub open spec fn tensor_spec(v: Seq<ComplexNumber>, w: Seq<ComplexNumber>) -> Seq<ComplexNumber> {
    Seq::new((v.len() * w.len()) as nat, |k: int| c_mul(v[k / (w.len() as int)], w[k % (w.len() as int)]))
}

/// Every amplitude has modulus at most one unit.
pub open spec fn vec_unit(v: Seq<ComplexNumber>) -> bool {
    forall|i: int| 0 <= i < v.len() ==> c_unit(#[trigger] v[i])
}

/// The Kronecker product of two amplitude vectors, iterating the left
/// one in the outer loop.
pub fn tensor_product(tensor1: Vec<ComplexNumber>, tensor2: Vec<ComplexNumber>) -> (r: Vec<
    ComplexNumber,
>)
    requires
        vec_amp(tensor1@),
        vec_unit(tensor2@),
        tensor1@.len() * tensor2@.len() <= 65536,
        tensor2@.len() >= 1,
    ensures
        r@ == tensor_spec(tensor1@, tensor2@),
        vec_amp(r@),
{
    let l1: usize = tensor1.len();
    let l2: usize = tensor2.len();
    let mut result: Vec<ComplexNumber> = Vec::new();
    let mut i: usize = 0;
    while i < l1
        invariant
            vec_amp(tensor1@),
            vec_unit(tensor2@),
            l1 == tensor1@.len(),
            l2 == tensor2@.len(),
            l1 * l2 <= 65536,
            l2 >= 1,
            i <= l1,
            result@.len() == i * l2,
            forall|k: int|
                0 <= k < i * l2 ==> #[trigger] result@[k] == c_mul(
                    tensor1@[k / (l2 as int)],
                    tensor2@[k % (l2 as int)],
                ),
            forall|k: int| 0 <= k < i * l2 ==> c_amp(#[trigger] result@[k]),
        decreases l1 - i,
    {
        let x: ComplexNumber = tensor1[i];
        let mut j: usize = 0;
        proof {
            assert(i * l2 + l2 <= l1 * l2) by (nonlinear_arith)
                requires
                    i < l1,
                    l2 >= 0,
            ;
        }
        while j < l2
            invariant
                vec_amp(tensor1@),
                vec_unit(tensor2@),
                l1 == tensor1@.len(),
                l2 == tensor2@.len(),
                l1 * l2 <= 65536,
                l2 >= 1,
                i < l1,
                x == tensor1@[i as int],
                j <= l2,
                i * l2 + l2 <= l1 * l2,
                result@.len() == i * l2 + j,
                forall|k: int|
                    0 <= k < i * l2 + j ==> #[trigger] result@[k] == c_mul(
                        tensor1@[k / (l2 as int)],
                        tensor2@[k % (l2 as int)],
                    ),
                forall|k: int| 0 <= k < i * l2 + j ==> c_amp(#[trigger] result@[k]),
            decreases l2 - j,
        {
            let y: ComplexNumber = tensor2[j];
            proof {
                assert(c_amp(tensor1@[i as int]));
                assert(c_unit(tensor2@[j as int]));
                crate::matrix::lemma_mul_fits(y, x);
                crate::matrix::lemma_comp_bound(x, 65544);
                crate::matrix::lemma_comp_bound(y, 262144);
                crate::matrix::lemma_c_mul_norm(x, y, AMP_LIM_SQ as int, SCALE_SQ as int);
                assert(c_norm2(c_mul(x, y)) * SCALE_SQ <= AMP_LIM_SQ * SCALE_SQ);
                assert(c_norm2(c_mul(x, y)) <= AMP_LIM_SQ) by (nonlinear_arith)
                    requires
                        c_norm2(c_mul(x, y)) * SCALE_SQ <= AMP_LIM_SQ * SCALE_SQ,
                        SCALE_SQ > 0,
                ;
                assert((i * l2 + j) / (l2 as int) == i && (i * l2 + j) % (l2 as int) == j)
                    by (nonlinear_arith)
                    requires
                        0 <= j < l2,
                        0 <= i,
                ;
            }
            result.push(x.mul(y));
            j = j + 1;
        }
        i = i + 1;
        proof {
            assert(i * l2 == (i - 1) * l2 + l2) by (nonlinear_arith);
        }
    }
    proof {
        assert(result@ =~= tensor_spec(tensor1@, tensor2@));
    }
    result
}

/// The register size `2^n`.
pub open spec fn reg_size(n: nat) -> nat
    decreases n,
{
    if n == 0 {
        1
    } else {
        2 * reg_size((n - 1) as nat)
    }
}

/// Register sizes grow with the track count.
pub proof fn lemma_reg_size_monotone(a: nat, b: nat)
    requires
        a <= b,
    ensures
        reg_size(a) <= reg_size(b),
        1 <= reg_size(a),
    decreases b,
{
    if a < b {
        lemma_reg_size_monotone(a, (b - 1) as nat);
    } else if a > 0 {
        lemma_reg_size_monotone((a - 1) as nat, (b - 1) as nat);
    }
}

/// With at most twelve tracks the register size stays within 4096.
pub proof fn lemma_reg_size_bounds(n: nat)
    requires
        n <= 12,
    ensures
        1 <= reg_size(n) <= 4096,
        n >= 1 ==> reg_size(n) == 2 * reg_size((n - 1) as nat),
{
    lemma_reg_size_monotone(n, 12);
    reveal_with_fuel(reg_size, 14);
    assert(reg_size(12) == 4096);
}

/// The joint state of a register of basis factors: the left fold of
/// the Kronecker product over the qubits in register order.
pub open spec fn state_of(qubits: Seq<Qubit>) -> Seq<ComplexNumber>
    decreases qubits.len(),
{
    if qubits.len() == 0 {
        Seq::empty()
    } else if qubits.len() == 1 {
        seq![qubits[0].a, qubits[0].b]
    } else {
        tensor_spec(
            state_of(qubits.drop_last()),
            seq![qubits[qubits.len() - 1].a, qubits[qubits.len() - 1].b],
        )
    }
}

/// The total squared magnitude of the first `n` amplitudes, a scaled
/// real: the state's probability mass.
pub open spec fn norm2_fx(v: Seq<ComplexNumber>, n: int) -> int
    decreases n,
{
    if n <= 0 {
        0
    } else {
        norm2_fx(v, n - 1) + c_abs2(v[n - 1])
    }
}

/// The matrix-vector product at the specification level.
pub open spec fn dot_spec(m: &Matrix, v: Seq<ComplexNumber>) -> Seq<ComplexNumber> {
    Seq::new(m.rows as nat, |i: int| crate::matrix::csum_prod(m.value@[i]@, v, m.cols as int))
}

/// An amplitude's squared magnitude is below `65553` once the
/// amplitude fits the amplitude bound.
pub proof fn lemma_abs2_amp(z: ComplexNumber)
    requires
        c_amp(z),
    ensures
        0 <= c_abs2(z) <= 65553,
{
    let rr = (z.real as int) * (z.real as int);
    let ii = (z.imaginary as int) * (z.imaginary as int);
    assert((z.real as int) * (z.real as int) >= 0 && (z.imaginary as int) * (z.imaginary as int)
        >= 0) by (nonlinear_arith);
    crate::complex::lemma_scale_down_shrinks(rr);
    crate::complex::lemma_scale_down_shrinks(ii);
    assert(rr / 65536 + ii / 65536 <= (rr + ii) / 65536) by (nonlinear_arith)
        requires
            rr >= 0,
            ii >= 0,
    ;
    assert((rr + ii) / 65536 <= 65553) by (nonlinear_arith)
        requires
            0 <= rr + ii <= 4296015936,
    ;
}

/// The amplitude vector of the whole register, with the number of
/// tracks it spans.
#[derive(Debug)]
pub struct QubitSystem {
    pub values: Vec<ComplexNumber>,
    pub len: usize,
}

/// Well-formedness: `2^len` amplitudes, at most twelve tracks, every
/// amplitude within the amplitude bound.
pub open spec fn sys_wf(s: &QubitSystem) -> bool {
    &&& s.values@.len() == reg_size(s.len as nat)
    &&& s.len <= 12
    &&& vec_amp(s.values@)
}

impl QubitSystem {
    /// Builds the joint state of the given basis qubits. An empty
    /// register is rejected.
    pub fn new(qubits: Vec<Qubit>) -> (r: Result<QubitSystem, SimError>)
        requires
            forall|i: int| 0 <= i < qubits@.len() ==> qubit_unit(#[trigger] qubits@[i]),
            qubits@.len() <= 12,
        ensures
            r is Err <==> qubits@.len() == 0,
            r is Err ==> r == Err::<QubitSystem, SimError>(SimError::EmptyInit),
            r is Ok ==> (r->Ok_0).len == qubits@.len() && (r->Ok_0).values@ == state_of(qubits@)
                && sys_wf(&r->Ok_0),
    {
        let n: usize = qubits.len();
        if n == 0 {
            return Err(SimError::EmptyInit);
        }
        let mut values: Vec<ComplexNumber> = qubits[0].as_vec();
        let mut i: usize = 1;
        proof {
            assert(qubits@.subrange(0, 1) =~= seq![qubits@[0]]);
            assert(values@ =~= state_of(qubits@.subrange(0, 1)));
            lemma_reg_size_bounds(1);
            assert(qubit_unit(qubits@[0]));
        }
        while i < n
            invariant
                forall|k: int| 0 <= k < qubits@.len() ==> qubit_unit(#[trigger] qubits@[k]),
                qubits@.len() == n,
                n <= 12,
                1 <= i <= n,
                values@ == state_of(qubits@.subrange(0, i as int)),
                values@.len() == reg_size(i as nat),
                vec_amp(values@),
            decreases n - i,
        {
            let q: Qubit = qubits[i];
            let qv: Vec<ComplexNumber> = q.as_vec();
            proof {
                assert(qubit_unit(qubits@[i as int]));
                assert(vec_unit(qv@));
                lemma_reg_size_bounds(i as nat);
                lemma_reg_size_bounds((i + 1) as nat);
            }
            let next: Vec<ComplexNumber> = tensor_product(values, qv);
            proof {
                assert(qubits@.subrange(0, i + 1).drop_last() =~= qubits@.subrange(0, i as int));
                assert(state_of(qubits@.subrange(0, i + 1)) == tensor_spec(
                    state_of(qubits@.subrange(0, i as int)),
                    seq![qubits@[i as int].a, qubits@[i as int].b],
                ));
                assert(qv@ =~= seq![qubits@[i as int].a, qubits@[i as int].b]);
            }
            values = next;
            i = i + 1;
        }
        proof {
            assert(qubits@.subrange(0, n as int) =~= qubits@);
        }
        Ok(QubitSystem { values, len: n })
    }

    /// Appends one `|0>`-style factor: the state becomes its Kronecker
    /// product with the new qubit's pair.
    pub fn add_qubit(&mut self, qubit: Qubit)
        requires
            sys_wf(&*old(self)),
            qubit_unit(qubit),
            old(self).len < 12,
        ensures
            final(self).len == old(self).len + 1,
            final(self).values@ == tensor_spec(old(self).values@, seq![qubit.a, qubit.b]),
            sys_wf(final(self)),
    {
        let qv: Vec<ComplexNumber> = qubit.as_vec();
        proof {
            lemma_reg_size_bounds(self.len as nat);
            lemma_reg_size_bounds((self.len + 1) as nat);
            assert(vec_unit(qv@));
        }
        let mut values: Vec<ComplexNumber> = Vec::new();
        std::mem::swap(&mut values, &mut self.values);
        let next: Vec<ComplexNumber> = tensor_product(values, qv);
        self.values = next;
        self.len = self.len + 1;
    }

    /// Wraps an existing amplitude vector spanning `len` tracks.
    pub fn from_tensor(values: Vec<ComplexNumber>, len: usize) -> (r: QubitSystem)
        requires
            len <= 12,
            values@.len() == reg_size(len as nat),
            vec_amp(values@),
        ensures
            r.values@ == values@,
            r.len == len,
            sys_wf(&r),
    {
        QubitSystem { values, len }
    }

    /// Whether the total probability mass is within the tolerance of
    /// one.
    pub fn system_normal(&self) -> (r: bool)
        requires
            sys_wf(self),
        ensures
            r == (-EPS < norm2_fx(self.values@, self.values@.len() as int) - SCALE < EPS),
    {
        let total: i64 = self.norm_squared();
        -EPS < total - SCALE && total - SCALE < EPS
    }

    /// The total probability mass, a scaled real.
    pub fn norm_squared(&self) -> (r: i64)
        requires
            sys_wf(self),
        ensures
            r == norm2_fx(self.values@, self.values@.len() as int),
            0 <= r <= 268505088,
    {
        let n: usize = self.values.len();
        proof {
            lemma_reg_size_bounds(self.len as nat);
        }
        let mut total: i64 = 0;
        let mut i: usize = 0;
        while i < n
            invariant
                sys_wf(self),
                n == self.values@.len(),
                n <= 4096,
                i <= n,
                total == norm2_fx(self.values@, i as int),
                0 <= total <= i * 65553,
            decreases n - i,
        {
            let z: ComplexNumber = self.values[i];
            proof {
                assert(c_amp(self.values@[i as int]));
                lemma_abs2_amp(z);
                crate::matrix::lemma_comp_bound(z, 65544);
                assert(c_norm2(z) <= ENTRY_LIM_SQ);
            }
            total = total + z.abs_squared();
            i = i + 1;
        }
        proof {
            lemma_reg_size_bounds(self.len as nat);
        }
        total
    }

    /// A copy of the amplitude vector.
    pub fn get_values(&self) -> (r: Vec<ComplexNumber>)
        ensures
            r@ == self.values@,
    {
        let n: usize = self.values.len();
        let mut r: Vec<ComplexNumber> = Vec::new();
        let mut i: usize = 0;
        while i < n
            invariant
                n == self.values@.len(),
                i <= n,
                r@ == self.values@.subrange(0, i as int),
            decreases n - i,
        {
            let z: ComplexNumber = self.values[i];
            r.push(z);
            proof {
                assert(r@ =~= self.values@.subrange(0, i + 1));
            }
            i = i + 1;
        }
        proof {
            assert(self.values@.subrange(0, n as int) =~= self.values@);
        }
        r
    }

    /// Applies a full-register operator: the state becomes `m * psi`.
    /// The matrix must match the register exactly; a result that
    /// leaves the amplitude bound is rejected unchanged.
    pub fn apply_full_gate(&mut self, matrix: Matrix) -> (r: Result<(), SimError>)
        requires
            sys_wf(&*old(self)),
            mat_wf(&matrix),
            matrix.rows == matrix.cols,
        ensures
            final(self).len == old(self).len,
            r == Err::<(), SimError>(SimError::DimensionMismatch) <==> matrix.rows
                != old(self).values@.len(),
            r is Err ==> final(self).values@ == old(self).values@,
            r is Ok ==> final(self).values@ == dot_spec(&matrix, old(self).values@) && sys_wf(final(self)),
            r is Ok <==> matrix.rows == old(self).values@.len() && vec_amp(
                dot_spec(&matrix, old(self).values@),
            ),
            r is Err ==> r == Err::<(), SimError>(SimError::DimensionMismatch) || r == Err::<
                (),
                SimError,
            >(SimError::NonNormalState),
    {
        if matrix.len() != self.values.len() {
            return Err(SimError::DimensionMismatch);
        }
        let nv: Vec<ComplexNumber> = matrix.dot(&self.values);
        proof {
            assert(nv@ =~= dot_spec(&matrix, self.values@));
        }
        let n: usize = nv.len();
        let mut i: usize = 0;
        while i < n
            invariant
                n == nv@.len(),
                i <= n,
                sys_wf(self),
                self.values@ == old(self).values@,
                self.len == old(self).len,
                mat_wf(&matrix),
                matrix.rows == self.values@.len(),
                matrix.rows == matrix.cols,
                nv@ == dot_spec(&matrix, old(self).values@),
                forall|k: int| 0 <= k < i ==> c_amp(#[trigger] nv@[k]),
            decreases n - i,
        {
            let z: ComplexNumber = nv[i];
            if z.real > 65544 || z.real < -65544 || z.imaginary > 65544 || z.imaginary < -65544 {
                proof {
                    assert(!c_amp(nv@[i as int])) by (nonlinear_arith)
                        requires
                            nv@[i as int] == z,
                            AMP_LIM_SQ == 4296015936,
                            z.real > 65544 || z.real < -65544 || z.imaginary > 65544
                                || z.imaginary < -65544,
                    ;
                    assert(!c_amp(dot_spec(&matrix, old(self).values@)[i as int]));
                }
                return Err(SimError::NonNormalState);
            }
            proof {
                assert(0 <= z.real * z.real <= 4296015936 && 0 <= z.imaginary * z.imaginary
                    <= 4296015936) by (nonlinear_arith)
                    requires
                        -65544 <= z.real <= 65544,
                        -65544 <= z.imaginary <= 65544,
                ;
            }
            let n2: i64 = z.real * z.real + z.imaginary * z.imaginary;
            if n2 > AMP_LIM_SQ {
                proof {
                    assert(!c_amp(dot_spec(&matrix, old(self).values@)[i as int]));
                }
                return Err(SimError::NonNormalState);
            }
            i = i + 1;
        }
        self.values = nv;
        Ok(())
    }
}

/// Relies on rand::random: an arbitrary value of the drawn type;
/// nothing can be promised of it.
pub assume_specification<T>[ rand::random::<T> ]() -> (r: T)
    where
        rand::distributions::Standard: rand::distributions::Distribution<T>,
;

/// A uniform fixed-point fraction in `[0, 1)`.
pub fn random_fraction() -> (r: i64)
    ensures
        0 <= r < SCALE,
{
    let x: u64 = rand::random::<u64>();
    (x % 65536) as i64
}

/// `2^n`, as executable code.
pub fn reg_size_exec(n: usize) -> (r: usize)
    requires
        n <= 12,
    ensures
        r == reg_size(n as nat),
        1 <= r <= 4096,
{
    let mut r: usize = 1;
    let mut k: usize = 0;
    proof {
        lemma_reg_size_bounds(n as nat);
    }
    while k < n
        invariant
            k <= n <= 12,
            r == reg_size(k as nat),
            r <= 4096,
        decreases n - k,
    {
        proof {
            lemma_reg_size_bounds((k + 1) as nat);
            lemma_reg_size_monotone((k + 1) as nat, n as nat);
            lemma_reg_size_bounds(n as nat);
        }
        r = r * 2;
        k = k + 1;
    }
    r
}

/// The total squared magnitude of an amplitude vector.
pub fn vec_norm2(v: &Vec<ComplexNumber>) -> (r: i64)
    requires
        vec_amp(v@),
        v@.len() <= 4096,
    ensures
        r == norm2_fx(v@, v@.len() as int),
        0 <= r <= 268505088,
{
    let n: usize = v.len();
    let mut total: i64 = 0;
    let mut i: usize = 0;
    while i < n
        invariant
            vec_amp(v@),
            n == v@.len(),
            n <= 4096,
            i <= n,
            total == norm2_fx(v@, i as int),
            0 <= total <= i * 65553,
        decreases n - i,
    {
        let z: ComplexNumber = v[i];
        proof {
            assert(c_amp(v@[i as int]));
            lemma_abs2_amp(z);
            crate::matrix::lemma_comp_bound(z, 65544);
            assert(c_norm2(z) <= ENTRY_LIM_SQ);
        }
        total = total + z.abs_squared();
        i = i + 1;
    }
    total
}

/// The probability mass, among the first `n` amplitudes, of the
/// indices whose remainder modulo `modulo` reaches `threshold`: under
/// the register's Kronecker ordering these are exactly the states
/// where the measured track reads one.
pub open spec fn prob_one(v: Seq<ComplexNumber>, modulo: int, threshold: int, n: int) -> int
    decreases n,
{
    if n <= 0 {
        0
    } else if (n - 1) % modulo >= threshold {
        prob_one(v, modulo, threshold, n - 1) + c_abs2(v[n - 1])
    } else {
        prob_one(v, modulo, threshold, n - 1)
    }
}

/// Whether index `idx` is consistent with reading bit `one_side` on
/// the track selected by `modulo` and `threshold`.
pub open spec fn ms_keep(idx: int, modulo: int, threshold: int, one_side: bool) -> bool {
    (idx % modulo >= threshold) == one_side
}

/// The state after zeroing every amplitude inconsistent with the
/// observed outcome.
pub open spec fn collapsed(
    v: Seq<ComplexNumber>,
    modulo: int,
    threshold: int,
    one_side: bool,
) -> Seq<ComplexNumber> {
    Seq::new(
        v.len(),
        |i: int|
            if ms_keep(i, modulo, threshold, one_side) {
                v[i]
            } else {
                crate::complex::c_zero()
            },
    )
}

/// Every amplitude divided by `root/SCALE`: the renormalization step.
pub open spec fn renormed(w: Seq<ComplexNumber>, root: int) -> Seq<ComplexNumber> {
    Seq::new(
        w.len(),
        |i: int|
            ComplexNumber {
                real: crate::complex::div_trunc(w[i].real * (SCALE as int), root) as i64,
                imaginary: crate::complex::div_trunc(w[i].imaginary * (SCALE as int), root) as i64,
            },
    )
}

/// Everything a successful single-track measurement promises: the
/// outcome bit is one exactly when the draw fell below the outcome-one
/// mass, and the new state is the collapsed state scaled by the
/// inverse square root of its remaining mass.
pub open spec fn ms_post(
    v0: Seq<ComplexNumber>,
    v1: Seq<ComplexNumber>,
    modulo: int,
    threshold: int,
    u: int,
    b: int,
) -> bool {
    let one_side = u < prob_one(v0, modulo, threshold, v0.len() as int);
    let w = collapsed(v0, modulo, threshold, one_side);
    &&& b == (if one_side {
        1int
    } else {
        0int
    })
    &&& exists|root: int|
        1 <= root && #[trigger] (root * root) <= norm2_fx(w, w.len() as int) * (SCALE as int)
            && (root + 1) * (root + 1) > norm2_fx(w, w.len() as int) * (SCALE as int) && v1
            == renormed(w, root)
}

/// When a single-track measurement with draw `u` succeeds: the
/// selected branch carries mass, and scaling it by the inverse square
/// root of that mass keeps every amplitude within the amplitude
/// bound. These are exactly the two run-time tests the measurement
/// makes.
pub open spec fn ms_ok(v0: Seq<ComplexNumber>, modulo: int, threshold: int, u: int) -> bool {
    let one_side = u < prob_one(v0, modulo, threshold, v0.len() as int);
    let w = collapsed(v0, modulo, threshold, one_side);
    let m = norm2_fx(w, w.len() as int);
    &&& m >= 1
    &&& exists|root: int|
        1 <= root && #[trigger] (root * root) <= m * (SCALE as int) && (root + 1) * (root + 1) > m
            * (SCALE as int) && vec_amp(renormed(w, root))
}

/// When rescaling a state to unit mass succeeds: the state carries
/// mass, and the rescaled amplitudes stay within the amplitude bound.
pub open spec fn rn_ok(v: Seq<ComplexNumber>) -> bool {
    let m = norm2_fx(v, v.len() as int);
    &&& m >= 1
    &&& exists|root: int|
        1 <= root && #[trigger] (root * root) <= m * (SCALE as int) && (root + 1) * (root + 1) > m
            * (SCALE as int) && vec_amp(renormed(v, root))
}

/// The integer square root is unique.
pub proof fn lemma_isqrt_unique(x: int, r1: int, r2: int)
    requires
        0 <= r1,
        0 <= r2,
        r1 * r1 <= x < (r1 + 1) * (r1 + 1),
        r2 * r2 <= x < (r2 + 1) * (r2 + 1),
    ensures
        r1 == r2,
{
    assert(r1 == r2) by (nonlinear_arith)
        requires
            0 <= r1,
            0 <= r2,
            r1 * r1 <= x < (r1 + 1) * (r1 + 1),
            r2 * r2 <= x < (r2 + 1) * (r2 + 1),
    ;
}

/// A witness amplitude that leaves the bound after renormalization
/// refutes the measurement's success condition: the integer square
/// root of the collapsed mass is unique, so every admissible root is
/// the computed one.
proof fn lemma_ms_not_ok(
    v0: Seq<ComplexNumber>,
    modulo: int,
    threshold: int,
    u: int,
    root: int,
    k: int,
)
    requires
        ({
            let one_side = u < prob_one(v0, modulo, threshold, v0.len() as int);
            let w = collapsed(v0, modulo, threshold, one_side);
            let m = norm2_fx(w, w.len() as int);
            &&& 1 <= root
            &&& root * root <= m * (SCALE as int)
            &&& (root + 1) * (root + 1) > m * (SCALE as int)
            &&& 0 <= k < w.len()
            &&& !crate::matrix::c_amp(renormed(w, root)[k])
        }),
    ensures
        !ms_ok(v0, modulo, threshold, u),
{
    let one_side = u < prob_one(v0, modulo, threshold, v0.len() as int);
    let w = collapsed(v0, modulo, threshold, one_side);
    let m = norm2_fx(w, w.len() as int);
    if ms_ok(v0, modulo, threshold, u) {
        let root2 = choose|root2: int|
            1 <= root2 && #[trigger] (root2 * root2) <= m * (SCALE as int) && (root2 + 1) * (root2
                + 1) > m * (SCALE as int) && vec_amp(renormed(w, root2));
        lemma_isqrt_unique(m * (SCALE as int), root, root2);
        assert(crate::matrix::c_amp(renormed(w, root2)[k]));
        assert(false);
    }
}

/// The same refutation for plain renormalization.
proof fn lemma_rn_not_ok(v: Seq<ComplexNumber>, root: int, k: int)
    requires
        1 <= root,
        root * root <= norm2_fx(v, v.len() as int) * (SCALE as int),
        (root + 1) * (root + 1) > norm2_fx(v, v.len() as int) * (SCALE as int),
        0 <= k < v.len(),
        !crate::matrix::c_amp(renormed(v, root)[k]),
    ensures
        !rn_ok(v),
{
    let m = norm2_fx(v, v.len() as int);
    if rn_ok(v) {
        let root2 = choose|root2: int|
            1 <= root2 && #[trigger] (root2 * root2) <= m * (SCALE as int) && (root2 + 1) * (root2
                + 1) > m * (SCALE as int) && vec_amp(renormed(v, root2));
        lemma_isqrt_unique(m * (SCALE as int), root, root2);
        assert(crate::matrix::c_amp(renormed(v, root2)[k]));
        assert(false);
    }
}

/// Truncating division of a scaled component by the root, as exec code.
fn scale_by_root(x: i64, root: u64) -> (r: i64)
    requires
        -65544 <= x <= 65544,
        1 <= root,
    ensures
        r == crate::complex::div_trunc(x * (SCALE as int), root as int),
{
    let num: i64 = x * SCALE;
    if num >= 0 {
        let q: u64 = (num as u64) / root;
        proof {
            assert((num as u64) / root <= (num as u64)) by (nonlinear_arith)
                requires
                    root >= 1,
            ;
        }
        q as i64
    } else {
        let q: u64 = ((-num) as u64) / root;
        proof {
            assert(((-num) as u64) / root <= ((-num) as u64)) by (nonlinear_arith)
                requires
                    root >= 1,
            ;
        }
        -(q as i64)
    }
}

impl QubitSystem {
    /// Measures one track: computes the outcome-one probability from
    /// the draw `u`, zeroes the amplitudes inconsistent with the
    /// outcome, and renormalizes. Fails, leaving the state unchanged,
    /// when the selected branch carries no mass or the renormalized
    /// state leaves the amplitude bound.
    pub fn measure_single_with(&mut self, target: usize, u: i64) -> (r: Result<usize, SimError>)
        requires
            sys_wf(&*old(self)),
            target < old(self).len,
            0 <= u < SCALE,
        ensures
            final(self).len == old(self).len,
            r is Err ==> final(self).values@ == old(self).values@ && r == Err::<usize, SimError>(
                SimError::NonNormalState,
            ),
            r is Ok ==> (r->Ok_0 == 0 || r->Ok_0 == 1) && sys_wf(final(self)) && ms_post(
                old(self).values@,
                final(self).values@,
                reg_size((old(self).len - target) as nat) as int,
                reg_size((old(self).len - target) as nat) as int / 2,
                u as int,
                r->Ok_0 as int,
            ),
            r is Ok ==> forall|idx: int|
                0 <= idx < final(self).values@.len() && !ms_keep(
                    idx,
                    reg_size((old(self).len - target) as nat) as int,
                    reg_size((old(self).len - target) as nat) as int / 2,
                    r->Ok_0 == 1,
                ) ==> final(self).values@[idx] == crate::complex::c_zero(),
            r is Ok <==> ms_ok(
                old(self).values@,
                reg_size((old(self).len - target) as nat) as int,
                reg_size((old(self).len - target) as nat) as int / 2,
                u as int,
            ),
            r is Ok && norm2_fx(
                collapsed(
                    old(self).values@,
                    reg_size((old(self).len - target) as nat) as int,
                    reg_size((old(self).len - target) as nat) as int / 2,
                    r->Ok_0 == 1,
                ),
                old(self).values@.len() as int,
            ) >= SCALE / 2 ==> -(15 * old(self).values@.len() + 8) < norm2_fx(
                final(self).values@,
                final(self).values@.len() as int,
            ) - SCALE < 15 * old(self).values@.len() + 8,
    {
        let ghost v0 = self.values@;
        let modulo: usize = reg_size_exec(self.len - target);
        let threshold: usize = modulo / 2;
        let n: usize = self.values.len();
        proof {
            lemma_reg_size_bounds(self.len as nat);
        }
        let mut p1: i64 = 0;
        let mut i: usize = 0;
        while i < n
            invariant
                sys_wf(self),
                self.values@ == v0,
                n == v0.len(),
                n <= 4096,
                modulo >= 1,
                i <= n,
                p1 == prob_one(v0, modulo as int, threshold as int, i as int),
                0 <= p1 <= i * 65553,
            decreases n - i,
        {
            let z: ComplexNumber = self.values[i];
            proof {
                assert(c_amp(v0[i as int]));
                lemma_abs2_amp(z);
                crate::matrix::lemma_comp_bound(z, 65544);
                assert(c_norm2(z) <= ENTRY_LIM_SQ);
            }
            if i % modulo >= threshold {
                p1 = p1 + z.abs_squared();
            }
            i = i + 1;
        }
        let one_side: bool = u < p1;
        let ghost w = collapsed(v0, modulo as int, threshold as int, one_side);
        let mut work: Vec<ComplexNumber> = Vec::new();
        let mut j: usize = 0;
        while j < n
            invariant
                sys_wf(self),
                self.values@ == v0,
                n == v0.len(),
                modulo >= 1,
                j <= n,
                work@.len() == j,
                w == collapsed(v0, modulo as int, threshold as int, one_side),
                forall|k: int| 0 <= k < j ==> #[trigger] work@[k] == w[k],
                forall|k: int| 0 <= k < j ==> c_amp(#[trigger] work@[k]),
            decreases n - j,
        {
            let z: ComplexNumber = self.values[j];
            proof {
                assert(c_amp(v0[j as int]));
                lemma_basis_unit();
            }
            if (j % modulo >= threshold) == one_side {
                work.push(z);
            } else {
                work.push(ComplexNumber::zero());
            }
            j = j + 1;
        }
        proof {
            assert(work@ =~= w);
        }
        let m: i64 = vec_norm2(&work);
        if m == 0 {
            proof {
                assert(!ms_ok(v0, modulo as int, threshold as int, u as int));
            }
            return Err(SimError::NonNormalState);
        }
        let arg: u64 = (m as u64) * 65536;
        proof {
            assert((m as u64) * 65536 < 4611686018427387904u64) by (nonlinear_arith)
                requires
                    1 <= m <= 268505088,
            ;
            assert(arg >= 65536 && arg == m * SCALE) by (nonlinear_arith)
                requires
                    m >= 1,
                    arg == (m as u64) * 65536,
                    SCALE == 65536,
            ;
        }
        let root: u64 = crate::trig::isqrt(arg);
        proof {
            assert(root >= 1) by (nonlinear_arith)
                requires
                    (root + 1) * (root + 1) > arg,
                    arg >= 65536,
            ;
        }
        let mut out: Vec<ComplexNumber> = Vec::new();
        let mut k: usize = 0;
        while k < n
            invariant
                self.len == old(self).len,
                self.values@ == old(self).values@,
                self.values@ == v0,
                v0 == old(self).values@,
                target < old(self).len,
                n == work@.len(),
                n == v0.len(),
                k <= n,
                modulo == reg_size((old(self).len - target) as nat),
                threshold == modulo / 2,
                0 <= u < SCALE,
                one_side == (u < prob_one(v0, modulo as int, threshold as int, v0.len() as int)),
                w == collapsed(v0, modulo as int, threshold as int, one_side),
                work@ == w,
                m == norm2_fx(w, w.len() as int),
                1 <= m,
                1 <= root,
                (root as int) * (root as int) <= m * SCALE,
                ((root + 1) as int) * ((root + 1) as int) > m * SCALE,
                forall|p: int| 0 <= p < n ==> c_amp(#[trigger] work@[p]),
                out@.len() == k,
                forall|p: int| 0 <= p < k ==> #[trigger] out@[p] == renormed(work@, root as int)[p],
                forall|p: int| 0 <= p < k ==> c_amp(#[trigger] out@[p]),
            decreases n - k,
        {
            let z: ComplexNumber = work[k];
            proof {
                assert(c_amp(work@[k as int]));
                crate::matrix::lemma_comp_bound(z, 65544);
            }
            let re: i64 = scale_by_root(z.real, root);
            let im: i64 = scale_by_root(z.imaginary, root);
            let bad_comp: bool = re > 65544 || re < -65544 || im > 65544 || im < -65544;
            let mut bad_mass: bool = false;
            if !bad_comp {
                proof {
                    assert(0 <= re * re <= 4296015936 && 0 <= im * im <= 4296015936)
                        by (nonlinear_arith)
                        requires
                            -65544 <= re <= 65544,
                            -65544 <= im <= 65544,
                    ;
                }
                let n2: i64 = re * re + im * im;
                bad_mass = n2 > AMP_LIM_SQ;
            }
            if bad_comp || bad_mass {
                proof {
                    assert(renormed(w, root as int)[k as int] == (ComplexNumber {
                        real: re,
                        imaginary: im,
                    }));
                    if bad_comp {
                        assert(!c_amp(renormed(w, root as int)[k as int])) by (nonlinear_arith)
                            requires
                                renormed(w, root as int)[k as int] == (ComplexNumber {
                                    real: re,
                                    imaginary: im,
                                }),
                                AMP_LIM_SQ == 4296015936,
                                re > 65544 || re < -65544 || im > 65544 || im < -65544,
                        ;
                    } else {
                        assert(!c_amp(renormed(w, root as int)[k as int]));
                    }
                    lemma_ms_not_ok(v0, modulo as int, threshold as int, u as int, root as int, k as int);
                }
                return Err(SimError::NonNormalState);
            }
            out.push(ComplexNumber::new(re, im));
            k = k + 1;
        }
        proof {
            assert(out@ =~= renormed(w, root as int));
            assert(vec_amp(renormed(w, root as int)));
            if norm2_fx(w, w.len() as int) >= SCALE / 2 {
                crate::laws::lemma_renormalized_near_unit(w, root as int);
            }
        }
        self.values = out;
        if one_side {
            Ok(1)
        } else {
            Ok(0)
        }
    }

    /// Measures one track with a fresh random draw.
    pub fn measure_single(&mut self, target: usize) -> (r: Result<usize, SimError>)
        requires
            sys_wf(&*old(self)),
            target < old(self).len,
        ensures
            final(self).len == old(self).len,
            r is Err ==> final(self).values@ == old(self).values@ && r == Err::<usize, SimError>(
                SimError::NonNormalState,
            ),
            r is Ok ==> (r->Ok_0 == 0 || r->Ok_0 == 1) && sys_wf(final(self)),
            r is Ok ==> exists|u: int|
                0 <= u < SCALE && #[trigger] ms_post(
                    old(self).values@,
                    final(self).values@,
                    reg_size((old(self).len - target) as nat) as int,
                    reg_size((old(self).len - target) as nat) as int / 2,
                    u,
                    r->Ok_0 as int,
                ),
            r is Ok ==> forall|idx: int|
                0 <= idx < final(self).values@.len() && !ms_keep(
                    idx,
                    reg_size((old(self).len - target) as nat) as int,
                    reg_size((old(self).len - target) as nat) as int / 2,
                    r->Ok_0 == 1,
                ) ==> final(self).values@[idx] == crate::complex::c_zero(),
            r is Err ==> exists|u: int|
                0 <= u < SCALE && !#[trigger] ms_ok(
                    old(self).values@,
                    reg_size((old(self).len - target) as nat) as int,
                    reg_size((old(self).len - target) as nat) as int / 2,
                    u,
                ),
            r is Ok && norm2_fx(
                collapsed(
                    old(self).values@,
                    reg_size((old(self).len - target) as nat) as int,
                    reg_size((old(self).len - target) as nat) as int / 2,
                    r->Ok_0 == 1,
                ),
                old(self).values@.len() as int,
            ) >= SCALE / 2 ==> -(15 * old(self).values@.len() + 8) < norm2_fx(
                final(self).values@,
                final(self).values@.len() as int,
            ) - SCALE < 15 * old(self).values@.len() + 8,
    {
        let u: i64 = random_fraction();
        self.measure_single_with(target, u)
    }

    /// Rescales the state to unit mass by dividing every amplitude by
    /// the square root of the current mass. Fails, leaving the state
    /// unchanged, on a zero state or when the result leaves the
    /// amplitude bound.
    pub fn renormalize(&mut self) -> (r: Result<(), SimError>)
        requires
            sys_wf(&*old(self)),
        ensures
            final(self).len == old(self).len,
            r is Err ==> final(self).values@ == old(self).values@ && r == Err::<(), SimError>(
                SimError::NonNormalState,
            ),
            r is Ok ==> sys_wf(final(self)) && exists|root: int|
                1 <= root && #[trigger] (root * root) <= norm2_fx(
                    old(self).values@,
                    old(self).values@.len() as int,
                ) * (SCALE as int) && (root + 1) * (root + 1) > norm2_fx(
                    old(self).values@,
                    old(self).values@.len() as int,
                ) * (SCALE as int) && final(self).values@ == renormed(old(self).values@, root),
            r is Ok <==> rn_ok(old(self).values@),
            r is Ok && norm2_fx(old(self).values@, old(self).values@.len() as int) >= SCALE / 2
                ==> -(15 * old(self).values@.len() + 8) < norm2_fx(
                final(self).values@,
                final(self).values@.len() as int,
            ) - SCALE < 15 * old(self).values@.len() + 8,
    {
        let ghost v0 = self.values@;
        let n: usize = self.values.len();
        proof {
            lemma_reg_size_bounds(self.len as nat);
        }
        let m: i64 = vec_norm2(&self.values);
        if m == 0 {
            proof {
                assert(!rn_ok(v0));
            }
            return Err(SimError::NonNormalState);
        }
        let arg: u64 = (m as u64) * 65536;
        proof {
            assert((m as u64) * 65536 < 4611686018427387904u64) by (nonlinear_arith)
                requires
                    1 <= m <= 268505088,
            ;
            assert(arg >= 65536 && arg == m * SCALE) by (nonlinear_arith)
                requires
                    m >= 1,
                    arg == (m as u64) * 65536,
                    SCALE == 65536,
            ;
        }
        let root: u64 = crate::trig::isqrt(arg);
        proof {
            assert(root >= 1) by (nonlinear_arith)
                requires
                    (root + 1) * (root + 1) > arg,
                    arg >= 65536,
            ;
        }
        let mut out: Vec<ComplexNumber> = Vec::new();
        let mut k: usize = 0;
        while k < n
            invariant
                self.len == old(self).len,
                self.values@ == old(self).values@,
                self.values@ == v0,
                n == v0.len(),
                k <= n,
                1 <= root,
                m == norm2_fx(v0, v0.len() as int),
                1 <= m,
                (root as int) * (root as int) <= m * SCALE,
                ((root + 1) as int) * ((root + 1) as int) > m * SCALE,
                vec_amp(v0),
                out@.len() == k,
                forall|p: int| 0 <= p < k ==> #[trigger] out@[p] == renormed(v0, root as int)[p],
                forall|p: int| 0 <= p < k ==> c_amp(#[trigger] out@[p]),
            decreases n - k,
        {
            let z: ComplexNumber = self.values[k];
            proof {
                assert(c_amp(v0[k as int]));
                crate::matrix::lemma_comp_bound(z, 65544);
            }
            let re: i64 = scale_by_root(z.real, root);
            let im: i64 = scale_by_root(z.imaginary, root);
            let bad_comp: bool = re > 65544 || re < -65544 || im > 65544 || im < -65544;
            let mut bad_mass: bool = false;
            if !bad_comp {
                proof {
                    assert(0 <= re * re <= 4296015936 && 0 <= im * im <= 4296015936)
                        by (nonlinear_arith)
                        requires
                            -65544 <= re <= 65544,
                            -65544 <= im <= 65544,
                    ;
                }
                let n2: i64 = re * re + im * im;
                bad_mass = n2 > AMP_LIM_SQ;
            }
            if bad_comp || bad_mass {
                proof {
                    assert(renormed(v0, root as int)[k as int] == (ComplexNumber {
                        real: re,
                        imaginary: im,
                    }));
                    if bad_comp {
                        assert(!c_amp(renormed(v0, root as int)[k as int])) by (nonlinear_arith)
                            requires
                                renormed(v0, root as int)[k as int] == (ComplexNumber {
                                    real: re,
                                    imaginary: im,
                                }),
                                AMP_LIM_SQ == 4296015936,
                                re > 65544 || re < -65544 || im > 65544 || im < -65544,
                        ;
                    } else {
                        assert(!c_amp(renormed(v0, root as int)[k as int]));
                    }
                    lemma_rn_not_ok(v0, root as int, k as int);
                }
                return Err(SimError::NonNormalState);
            }
            out.push(ComplexNumber::new(re, im));
            k = k + 1;
        }
        proof {
            assert(out@ =~= renormed(v0, root as int));
            assert(vec_amp(renormed(v0, root as int)));
            if norm2_fx(v0, v0.len() as int) >= SCALE / 2 {
                crate::laws::lemma_renormalized_near_unit(v0, root as int);
            }
        }
        self.values = out;
        Ok(())
    }
}

/// The index of the basis state a full measurement selects: the first
/// index at which the running probability mass reaches the draw, or
/// zero when the mass never does.
pub open spec fn pick_from(v: Seq<ComplexNumber>, u: int, idx: int, acc: int) -> int
    decreases v.len() - idx,
{
    if idx < 0 || idx >= v.len() {
        0
    } else if u <= acc + c_abs2(v[idx]) {
        idx
    } else {
        pick_from(v, u, idx + 1, acc + c_abs2(v[idx]))
    }
}

/// The basis vector for state `k`.
pub open spec fn basis_state(size: nat, k: int) -> Seq<ComplexNumber> {
    Seq::new(
        size,
        |j: int|
            if j == k {
                crate::complex::c_one()
            } else {
                crate::complex::c_zero()
            },
    )
}

/// Bit `p` (counting from the least significant) of the index `k`.
pub open spec fn bit_of(k: int, p: nat) -> int {
    (k / (reg_size(p) as int)) % 2
}

impl QubitSystem {
    /// Measures the whole register: checks the total mass, selects a
    /// basis state from the draw `u`, collapses onto it, and returns
    /// the outcome bits most significant track first.
    pub fn measure_with(&mut self, u: i64) -> (r: Result<Vec<usize>, SimError>)
        requires
            sys_wf(&*old(self)),
            0 <= u < SCALE,
        ensures
            final(self).len == old(self).len,
            r is Err <==> !(-EPS < norm2_fx(old(self).values@, old(self).values@.len() as int)
                - SCALE < EPS),
            r is Err ==> final(self).values@ == old(self).values@ && r == Err::<
                Vec<usize>,
                SimError,
            >(SimError::NonNormalState),
            r is Ok ==> sys_wf(final(self)) && final(self).values@ == basis_state(
                old(self).values@.len(),
                pick_from(old(self).values@, u as int, 0, 0),
            ),
            r is Ok ==> (r->Ok_0)@.len() == old(self).len && forall|i: int|
                0 <= i < old(self).len ==> (r->Ok_0)@[i] == bit_of(
                    pick_from(old(self).values@, u as int, 0, 0),
                    (old(self).len - 1 - i) as nat,
                ),
    {
        let ghost v0 = self.values@;
        if !self.system_normal() {
            return Err(SimError::NonNormalState);
        }
        let n: usize = self.values.len();
        proof {
            lemma_reg_size_bounds(self.len as nat);
        }
        let mut k: usize = 0;
        let mut found: bool = false;
        let mut acc: i64 = 0;
        let mut i: usize = 0;
        while i < n && !found
            invariant
                sys_wf(self),
                self.values@ == v0,
                n == v0.len(),
                n <= 4096,
                i <= n,
                0 <= acc <= i * 65553,
                !found ==> k == 0 && pick_from(v0, u as int, 0, 0) == pick_from(
                    v0,
                    u as int,
                    i as int,
                    acc as int,
                ),
                found ==> k == pick_from(v0, u as int, 0, 0) && k < n,
            decreases n - i + (if found {
                0int
            } else {
                1int
            }),
        {
            let z: ComplexNumber = self.values[i];
            proof {
                assert(c_amp(v0[i as int]));
                lemma_abs2_amp(z);
                crate::matrix::lemma_comp_bound(z, 65544);
            }
            let p: i64 = z.abs_squared();
            if u <= acc + p {
                k = i;
                found = true;
            } else {
                acc = acc + p;
                i = i + 1;
            }
        }
        proof {
            if !found {
                assert(pick_from(v0, u as int, n as int, acc as int) == 0);
            }
            lemma_basis_unit();
        }
        let ghost kk = pick_from(v0, u as int, 0, 0);
        let mut out: Vec<ComplexNumber> = Vec::new();
        let mut j: usize = 0;
        while j < n
            invariant
                j <= n,
                k == kk,
                out@.len() == j,
                forall|p: int| 0 <= p < j ==> #[trigger] out@[p] == basis_state(n as nat, kk)[p],
                forall|p: int| 0 <= p < j ==> c_amp(#[trigger] out@[p]),
            decreases n - j,
        {
            proof {
                lemma_basis_unit();
            }
            if j == k {
                out.push(ComplexNumber::one());
            } else {
                out.push(ComplexNumber::zero());
            }
            j = j + 1;
        }
        proof {
            assert(out@ =~= basis_state(n as nat, kk));
        }
        self.values = out;
        let len: usize = self.len;
        let mut bits: Vec<usize> = Vec::new();
        let mut t: usize = 0;
        while t < len
            invariant
                len <= 12,
                k == kk,
                t <= len,
                bits@.len() == t,
                forall|p: int|
                    0 <= p < t ==> #[trigger] bits@[p] == bit_of(kk, (len - 1 - p) as nat),
            decreases len - t,
        {
            let d: usize = reg_size_exec(len - 1 - t);
            bits.push(k / d % 2);
            t = t + 1;
        }
        Ok(bits)
    }

    /// Measures the whole register with a fresh random draw.
    pub fn measure(&mut self) -> (r: Result<Vec<usize>, SimError>)
        requires
            sys_wf(&*old(self)),
        ensures
            final(self).len == old(self).len,
            r is Err <==> !(-EPS < norm2_fx(old(self).values@, old(self).values@.len() as int)
                - SCALE < EPS),
            r is Err ==> final(self).values@ == old(self).values@ && r == Err::<
                Vec<usize>,
                SimError,
            >(SimError::NonNormalState),
            r is Ok ==> sys_wf(final(self)) && (r->Ok_0)@.len() == old(self).len,
            r is Ok ==> exists|u: int|
                0 <= u < SCALE && final(self).values@ == basis_state(
                    old(self).values@.len(),
                    #[trigger] pick_from(old(self).values@, u, 0, 0),
                ) && (forall|i: int|
                    0 <= i < old(self).len ==> (r->Ok_0)@[i] == bit_of(
                        pick_from(old(self).values@, u, 0, 0),
                        (old(self).len - 1 - i) as nat,
                    )),
    {
        let u: i64 = random_fraction();
        let ghost v0 = self.values@;
        let r = self.measure_with(u);
        proof {
            if r is Ok {
                let kk = pick_from(v0, u as int, 0, 0);
                lemma_pick_in_range(v0, u as int, 0, 0);
                assert(0 <= kk < v0.len() || v0.len() == 0);
                assert(v0.len() >= 1) by {
                    lemma_reg_size_bounds(old(self).len as nat);
                };
            }
        }
        r
    }

    /// The density matrix `rho = |psi><psi|`: entry `(i, j)` is
    /// `conj(psi_i) * psi_j`.
    pub fn density_matrix(&self) -> (r: Matrix)
        requires
            sys_wf(self),
        ensures
            mat_wf(&r),
            r.rows == self.values@.len(),
            r.cols == self.values@.len(),
            forall|i: int, j: int|
                0 <= i < r.rows && 0 <= j < r.cols ==> #[trigger] ent(&r, i, j) == c_mul(
                    crate::complex::c_conj(self.values@[i]),
                    self.values@[j],
                ),
    {
        let n: usize = self.values.len();
        proof {
            lemma_reg_size_bounds(self.len as nat);
        }
        let mut value: Vec<Vec<ComplexNumber>> = Vec::new();
        let mut i: usize = 0;
        while i < n
            invariant
                sys_wf(self),
                n == self.values@.len(),
                1 <= n <= 4096,
                i <= n,
                value@.len() == i,
                forall|p: int| 0 <= p < i ==> (#[trigger] value@[p])@.len() == n,
                forall|p: int, q: int|
                    0 <= p < i && 0 <= q < n ==> #[trigger] value@[p]@[q] == c_mul(
                        crate::complex::c_conj(self.values@[p]),
                        self.values@[q],
                    ),
                forall|p: int, q: int|
                    0 <= p < i && 0 <= q < n ==> c_norm2(#[trigger] value@[p]@[q])
                        <= ENTRY_LIM_SQ,
            decreases n - i,
        {
            let zi: ComplexNumber = self.values[i];
            proof {
                assert(c_amp(self.values@[i as int]));
                crate::matrix::lemma_comp_bound(zi, 65544);
            }
            let bra: ComplexNumber = zi.conjugate();
            proof {
                assert(c_norm2(bra) == c_norm2(zi)) by (nonlinear_arith)
                    requires
                        bra.real == zi.real,
                        bra.imaginary == -(zi.imaginary as int),
                ;
            }
            let mut row: Vec<ComplexNumber> = Vec::new();
            let mut j: usize = 0;
            while j < n
                invariant
                    sys_wf(self),
                    n == self.values@.len(),
                    i < n,
                    bra == crate::complex::c_conj(self.values@[i as int]),
                    c_amp(bra),
                    j <= n,
                    row@.len() == j,
                    forall|q: int|
                        0 <= q < j ==> #[trigger] row@[q] == c_mul(
                            crate::complex::c_conj(self.values@[i as int]),
                            self.values@[q],
                        ),
                    forall|q: int|
                        0 <= q < j ==> c_norm2(#[trigger] row@[q]) <= ENTRY_LIM_SQ,
                decreases n - j,
            {
                let zj: ComplexNumber = self.values[j];
                proof {
                    assert(c_amp(self.values@[j as int]));
                    crate::matrix::lemma_comp_bound(bra, 65544);
                    crate::matrix::lemma_comp_bound(zj, 65544);
                    crate::matrix::lemma_c_mul_norm(
                        bra,
                        zj,
                        AMP_LIM_SQ as int,
                        AMP_LIM_SQ as int,
                    );
                }
                row.push(bra.mul(zj));
                j = j + 1;
            }
            value.push(row);
            i = i + 1;
        }
        Matrix { value, rows: n, cols: n }
    }
}

/// The selected index of a full measurement is always in range for a
/// nonempty amplitude vector.
pub proof fn lemma_pick_in_range(v: Seq<ComplexNumber>, u: int, idx: int, acc: int)
    requires
        0 <= idx,
    ensures
        0 <= pick_from(v, u, idx, acc) < v.len() || (pick_from(v, u, idx, acc) == 0 && v.len()
            >= 0),
    decreases v.len() - idx,
{
    if 0 <= idx < v.len() {
        if !(u <= acc + c_abs2(v[idx])) {
            lemma_pick_in_range(v, u, idx + 1, acc + c_abs2(v[idx]));
        }
    }
}

/// The index with bit `b` placed at position `q`, shifting the bits
/// above `q` up by one: the inverse of the reduced-index map of the
/// partial trace.
pub open spec fn insert_bit(x: int, q: nat, b: int) -> int {
    let p = reg_size(q) as int;
    (x % p) + p * b + 2 * p * (x / p)
}

/// One entry of the reduced density matrix: the sum of the two entries
/// of the full matrix whose traced-out bit agrees on rows and columns.
pub open spec fn pt_entry(m: &Matrix, q: nat, ri: int, rj: int) -> ComplexNumber {
    c_add(
        ent(m, insert_bit(ri, q, 0), insert_bit(rj, q, 0)),
        ent(m, insert_bit(ri, q, 1), insert_bit(rj, q, 1)),
    )
}

/// A smaller register size divides a larger one.
pub proof fn lemma_reg_size_divides(b: nat, a: nat)
    requires
        b <= a,
    ensures
        (reg_size(a) as int) % (reg_size(b) as int) == 0,
    decreases a,
{
    let p = reg_size(b) as int;
    lemma_reg_size_monotone(0, b);
    if a == b {
        vstd::arithmetic::div_mod::lemma_mod_multiples_basic(1, p);
    } else {
        lemma_reg_size_divides(b, (a - 1) as nat);
        let m = reg_size((a - 1) as nat) as int;
        vstd::arithmetic::div_mod::lemma_fundamental_div_mod(m, p);
        assert(m == p * (m / p));
        assert(2 * m == (2 * (m / p)) * p) by (nonlinear_arith)
            requires
                m == p * (m / p),
        ;
        vstd::arithmetic::div_mod::lemma_mod_multiples_basic(2 * (m / p), p);
    }
}

/// The density matrix of a state, at the specification level.
pub open spec fn density_view(v: Seq<ComplexNumber>) -> Seq<Seq<ComplexNumber>> {
    Seq::new(
        v.len(),
        |i: int|
            Seq::new(v.len(), |j: int| c_mul(crate::complex::c_conj(v[i]), v[j])),
    )
}

/// One entry of the reduction of a specification-level matrix by the
/// bit at position `q`.
pub open spec fn pt_entry_view(
    m: Seq<Seq<ComplexNumber>>,
    q: nat,
    ri: int,
    rj: int,
) -> ComplexNumber {
    c_add(
        m[insert_bit(ri, q, 0)][insert_bit(rj, q, 0)],
        m[insert_bit(ri, q, 1)][insert_bit(rj, q, 1)],
    )
}

/// The reduction of a specification-level matrix by the bit at
/// position `q`: its side halves.
pub open spec fn pt_view(m: Seq<Seq<ComplexNumber>>, q: nat) -> Seq<Seq<ComplexNumber>> {
    Seq::new(
        (m.len() / 2) as nat,
        |ri: int| Seq::new((m.len() / 2) as nat, |rj: int| pt_entry_view(m, q, ri, rj)),
    )
}

/// Whether every entry of the reduction by bit `q` stays within the
/// entry bound (the condition under which `partial_trace` succeeds).
pub open spec fn pt_step_ok(m: Seq<Seq<ComplexNumber>>, q: nat) -> bool {
    forall|ri: int, rj: int|
        0 <= ri < m.len() / 2 && 0 <= rj < m.len() / 2 ==> c_norm2(
            #[trigger] pt_entry_view(m, q, ri, rj),
        ) <= ENTRY_LIM_SQ
}

/// Which bit position one reduction step traces out while walking the
/// tracks: position zero until the kept track has moved to the front,
/// position one afterwards.
pub open spec fn reduce_step_target(i: int, keep: int) -> nat {
    if i < keep {
        0
    } else {
        1
    }
}

/// The iterated reduction of a density matrix onto the kept position:
/// walking `i` over all positions, every position but `keep` is
/// traced out at its re-indexed place.
pub open spec fn bloch_chain(m: Seq<Seq<ComplexNumber>>, keep: int, i: int, n: int) -> Seq<
    Seq<ComplexNumber>,
>
    decreases n - i,
{
    if i >= n {
        m
    } else if i == keep {
        bloch_chain(m, keep, i + 1, n)
    } else {
        bloch_chain(pt_view(m, reduce_step_target(i, keep)), keep, i + 1, n)
    }
}

/// Whether every step of the iterated reduction stays within the
/// entry bound.
pub open spec fn bloch_chain_ok(m: Seq<Seq<ComplexNumber>>, keep: int, i: int, n: int) -> bool
    decreases n - i,
{
    if i >= n {
        true
    } else if i == keep {
        bloch_chain_ok(m, keep, i + 1, n)
    } else {
        pt_step_ok(m, reduce_step_target(i, keep)) && bloch_chain_ok(
            pt_view(m, reduce_step_target(i, keep)),
            keep,
            i + 1,
            n,
        )
    }
}

/// Inserting a bit at position `q` below the halved register lands
/// inside the full register.
pub proof fn lemma_insert_bit_range(x: int, q: nat, b: int, half: int, p: int)
    requires
        0 <= x < half,
        0 <= b <= 1,
        p == reg_size(q) as int,
        1 <= p <= half,
        half % p == 0,
    ensures
        0 <= insert_bit(x, q, b) < 2 * half,
        insert_bit(x, q, 0) + p == insert_bit(x, q, 1),
{
    assert(0 <= x % p < p && 0 <= x / p && p * (x / p) <= x) by (nonlinear_arith)
        requires
            p >= 1,
            x >= 0,
    ;
    vstd::arithmetic::div_mod::lemma_fundamental_div_mod(half, p);
    vstd::arithmetic::div_mod::lemma_fundamental_div_mod(x, p);
    assert(half == p * (half / p));
    assert(x == p * (x / p) + x % p);
    assert(x / p <= half / p - 1) by (nonlinear_arith)
        requires
            0 <= x < half,
            p >= 1,
            half == p * (half / p),
            0 <= x / p,
            p * (x / p) <= x,
            x == p * (x / p) + x % p,
            0 <= x % p < p,
    ;
    assert((x % p) + p * b + 2 * p * (x / p) < 2 * half) by (nonlinear_arith)
        requires
            0 <= x % p < p,
            0 <= b <= 1,
            p >= 1,
            x / p <= half / p - 1,
            half == p * (half / p),
            x / p >= 0,
    ;
}

/// Reduces an `n`-qubit density matrix by tracing out qubit `q`:
/// entry `(ri, rj)` of the result sums the full-matrix entries over
/// both values of the traced-out bit. A result outside the entry
/// bound is rejected.
pub fn partial_trace(density_matrix: Matrix, qubit_idx: usize, num_qubits: usize) -> (r: Result<
    Matrix,
    SimError,
>)
    requires
        mat_wf(&density_matrix),
        1 <= num_qubits <= 12,
        qubit_idx < num_qubits,
        density_matrix.rows == reg_size(num_qubits as nat),
        density_matrix.cols == reg_size(num_qubits as nat),
    ensures
        r is Ok ==> mat_wf(&r->Ok_0) && (r->Ok_0).rows == reg_size((num_qubits - 1) as nat) && (
        r->Ok_0).cols == reg_size((num_qubits - 1) as nat) && forall|ri: int, rj: int|
            0 <= ri < (r->Ok_0).rows && 0 <= rj < (r->Ok_0).cols ==> #[trigger] ent(
                &r->Ok_0,
                ri,
                rj,
            ) == pt_entry(&density_matrix, qubit_idx as nat, ri, rj),
        r is Err ==> r == Err::<Matrix, SimError>(SimError::NonNormalState),
        r is Ok <==> forall|ri: int, rj: int|
            0 <= ri < reg_size((num_qubits - 1) as nat) && 0 <= rj < reg_size(
                (num_qubits - 1) as nat,
            ) ==> c_norm2(#[trigger] pt_entry(&density_matrix, qubit_idx as nat, ri, rj))
                <= ENTRY_LIM_SQ,
{
    let half: usize = reg_size_exec(num_qubits - 1);
    let p: usize = reg_size_exec(qubit_idx);
    proof {
        lemma_reg_size_monotone(qubit_idx as nat, (num_qubits - 1) as nat);
        lemma_reg_size_bounds(num_qubits as nat);
        lemma_reg_size_bounds((num_qubits - 1) as nat);
        lemma_reg_size_divides(qubit_idx as nat, (num_qubits - 1) as nat);
    }
    let mut value: Vec<Vec<ComplexNumber>> = Vec::new();
    let mut ri: usize = 0;
    while ri < half
        invariant
            mat_wf(&density_matrix),
            1 <= num_qubits <= 12,
            qubit_idx < num_qubits,
            density_matrix.rows == reg_size(num_qubits as nat),
            density_matrix.cols == reg_size(num_qubits as nat),
            half == reg_size((num_qubits - 1) as nat),
            density_matrix.rows == 2 * half,
            density_matrix.cols == 2 * half,
            p == reg_size(qubit_idx as nat),
            1 <= p <= half <= 4096,
                (half as int) % (p as int) == 0,
            ri <= half,
            value@.len() == ri,
            forall|a: int| 0 <= a < ri ==> (#[trigger] value@[a])@.len() == half,
            forall|a: int, bq: int|
                0 <= a < ri && 0 <= bq < half ==> #[trigger] value@[a]@[bq] == pt_entry(
                    &density_matrix,
                    qubit_idx as nat,
                    a,
                    bq,
                ),
            forall|a: int, bq: int|
                0 <= a < ri && 0 <= bq < half ==> c_norm2(#[trigger] value@[a]@[bq])
                    <= ENTRY_LIM_SQ,
        decreases half - ri,
    {
        proof {
            lemma_insert_bit_range(ri as int, qubit_idx as nat, 0, half as int, p as int);
            lemma_insert_bit_range(ri as int, qubit_idx as nat, 1, half as int, p as int);
        }
        let i0: usize = (ri % p) + 2 * p * (ri / p);
        let i1: usize = i0 + p;
        let mut row: Vec<ComplexNumber> = Vec::new();
        let mut rj: usize = 0;
        while rj < half
            invariant
                mat_wf(&density_matrix),
                half == reg_size((num_qubits - 1) as nat),
                density_matrix.rows == 2 * half,
                density_matrix.cols == 2 * half,
                p == reg_size(qubit_idx as nat),
                1 <= p <= half <= 4096,
                (half as int) % (p as int) == 0,
                ri < half,
                i0 == insert_bit(ri as int, qubit_idx as nat, 0),
                i1 == insert_bit(ri as int, qubit_idx as nat, 1),
                i1 < 2 * half,
                rj <= half,
                row@.len() == rj,
                forall|bq: int|
                    0 <= bq < rj ==> #[trigger] row@[bq] == pt_entry(
                        &density_matrix,
                        qubit_idx as nat,
                        ri as int,
                        bq,
                    ),
                forall|bq: int|
                    0 <= bq < rj ==> c_norm2(#[trigger] row@[bq]) <= ENTRY_LIM_SQ,
            decreases half - rj,
        {
            proof {
                lemma_insert_bit_range(rj as int, qubit_idx as nat, 0, half as int, p as int);
                lemma_insert_bit_range(rj as int, qubit_idx as nat, 1, half as int, p as int);
            }
            let j0: usize = (rj % p) + 2 * p * (rj / p);
            let j1: usize = j0 + p;
            let z0: ComplexNumber = density_matrix.get(i0, j0);
            let z1: ComplexNumber = density_matrix.get(i1, j1);
            proof {
                crate::matrix::lemma_comp_bound(z0, 262144);
                crate::matrix::lemma_comp_bound(z1, 262144);
            }
            let cell: ComplexNumber = z0.add(z1);
            proof {
                assert(0 <= cell.real * cell.real <= 274877906944
                    && 0 <= cell.imaginary * cell.imaginary <= 274877906944)
                    by (nonlinear_arith)
                    requires
                        -524288 <= cell.real <= 524288,
                        -524288 <= cell.imaginary <= 524288,
                ;
            }
            let n2: i64 = cell.real * cell.real + cell.imaginary * cell.imaginary;
            if n2 > ENTRY_LIM_SQ {
                proof {
                    assert(cell == pt_entry(&density_matrix, qubit_idx as nat, ri as int, rj as int));
                    assert(!(c_norm2(pt_entry(&density_matrix, qubit_idx as nat, ri as int, rj as int)) <= ENTRY_LIM_SQ));
                }
                return Err(SimError::NonNormalState);
            }
            row.push(cell);
            rj = rj + 1;
        }
        value.push(row);
        ri = ri + 1;
    }
    let r = Matrix { value, rows: half, cols: half };
    proof {
        lemma_reg_size_bounds((num_qubits - 1) as nat);
        assert forall|a: int, bq: int|
            0 <= a < half && 0 <= bq < half implies c_norm2(
            #[trigger] pt_entry(&density_matrix, qubit_idx as nat, a, bq),
        ) <= ENTRY_LIM_SQ by {
            assert(value@[a]@[bq] == pt_entry(&density_matrix, qubit_idx as nat, a, bq));
            assert(c_norm2(value@[a]@[bq]) <= ENTRY_LIM_SQ);
        }
    }
    Ok(r)
}

/// The Bloch coordinates of a one-qubit density matrix:
/// `(2 Re rho01, 2 Im rho01, Re rho00 - Re rho11)`.
pub fn bloch_vector(density_matrix: Matrix) -> (r: Vec<i64>)
    requires
        mat_wf(&density_matrix),
        density_matrix.rows == 2,
        density_matrix.cols == 2,
    ensures
        r@.len() == 3,
        r@[0] == 2 * ent(&density_matrix, 0, 1).real,
        r@[1] == 2 * ent(&density_matrix, 0, 1).imaginary,
        r@[2] == ent(&density_matrix, 0, 0).real - ent(&density_matrix, 1, 1).real,
{
    let c: ComplexNumber = density_matrix.get(0, 1);
    let rho00: ComplexNumber = density_matrix.get(0, 0);
    let rho11: ComplexNumber = density_matrix.get(1, 1);
    proof {
        crate::matrix::lemma_comp_bound(c, 262144);
        crate::matrix::lemma_comp_bound(rho00, 262144);
        crate::matrix::lemma_comp_bound(rho11, 262144);
    }
    let mut r: Vec<i64> = Vec::new();
    r.push(2 * c.real);
    r.push(2 * c.imaginary);
    r.push(rho00.real - rho11.real);
    r
}

/// The rows of the 2x2 identity at the specification level.
pub open spec fn id2_view() -> Seq<Seq<ComplexNumber>> {
    seq![
        seq![crate::complex::c_one(), crate::complex::c_zero()],
        seq![crate::complex::c_zero(), crate::complex::c_one()],
    ]
}

/// The matrix-vector product over specification-level rows.
pub open spec fn dot_view(m: Seq<Seq<ComplexNumber>>, v: Seq<ComplexNumber>) -> Seq<
    ComplexNumber,
> {
    Seq::new(m.len(), |i: int| crate::matrix::csum_prod(m[i], v, m[0].len() as int))
}

/// For a concrete matrix the two dot products agree.
pub proof fn lemma_dot_spec_view(m: &Matrix, v: Seq<ComplexNumber>)
    requires
        mat_wf(m),
    ensures
        dot_spec(m, v) == dot_view(mat_view(m), v),
{
    assert forall|i: int| 0 <= i < m.rows implies dot_spec(m, v)[i] == dot_view(
        mat_view(m),
        v,
    )[i] by {
        assert(mat_view(m)[i] == m.value@[i]@);
        assert(mat_view(m)[0] == m.value@[0]@);
    }
    assert(dot_spec(m, v) =~= dot_view(mat_view(m), v));
}

/// The full-register operator that `apply_gate` assembles: walking
/// the tracks from the left, the target track receives the applied
/// gate (covering as many tracks as it spans) and every other track
/// the identity, folded by the Kronecker product from a 1x1 seed.
pub open spec fn targeted_full(
    tracks: int,
    target: int,
    gm: Seq<Seq<ComplexNumber>>,
    span: int,
    slot: int,
    acc: Seq<Seq<ComplexNumber>>,
    fuel: nat,
) -> Seq<Seq<ComplexNumber>>
    decreases fuel,
{
    if fuel == 0 || slot >= tracks {
        acc
    } else if slot == target {
        targeted_full(tracks, target, gm, span, slot + span, kron_spec(acc, gm), (fuel - 1) as nat)
    } else {
        targeted_full(
            tracks,
            target,
            gm,
            span,
            slot + 1,
            kron_spec(acc, id2_view()),
            (fuel - 1) as nat,
        )
    }
}

/// How many tracks a square gate matrix of the given side covers.
pub open spec fn mat_span(rows: int) -> int {
    if rows == 2 {
        1
    } else if rows == 4 {
        2
    } else if rows == 8 {
        3
    } else {
        4
    }
}

/// Register sizes multiply when track counts add.
pub proof fn lemma_reg_size_add(a: nat, b: nat)
    ensures
        reg_size((a + b) as nat) == reg_size(a) * reg_size(b),
    decreases b,
{
    if b == 0 {
        assert(reg_size(a) * 1 == reg_size(a)) by (nonlinear_arith);
    } else {
        lemma_reg_size_add(a, (b - 1) as nat);
        assert(reg_size((a + b) as nat) == 2 * reg_size((a + b - 1) as nat));
        assert(2 * (reg_size(a) * reg_size((b - 1) as nat)) == reg_size(a) * (2 * reg_size(
            (b - 1) as nat,
        ))) by (nonlinear_arith);
    }
}

/// The operator that `apply_gate_all` assembles: a gate's `k`-fold
/// Kronecker power.
pub open spec fn kron_power(
    gm: Seq<Seq<ComplexNumber>>,
    k: int,
    acc: Seq<Seq<ComplexNumber>>,
) -> Seq<Seq<ComplexNumber>>
    decreases k,
{
    if k <= 0 {
        acc
    } else {
        kron_power(gm, k - 1, kron_spec(acc, gm))
    }
}

/// The composite operator of one column: the Kronecker fold, from the
/// left, of each entry's matrix, skipping placeholders; `M` counts as
/// the identity.
pub open spec fn column_ok(gates: Seq<Gate>, n: int, m: Seq<Seq<ComplexNumber>>) -> bool
    decreases n,
{
    if n <= 0 {
        m == crate::matrix::one_by_one()
    } else if gates[n - 1] is Other {
        column_ok(gates, n - 1, m)
    } else {
        exists|gm: Seq<Seq<ComplexNumber>>, prev: Seq<Seq<ComplexNumber>>|
            crate::gates::gate_matrix_ok(gates[n - 1], gm) && column_ok(gates, n - 1, prev) && m
                == #[trigger] kron_spec(prev, gm)
    }
}

/// The number of rows of one column's composite operator.
pub open spec fn col_size(gates: Seq<Gate>, n: int) -> int
    decreases n,
{
    if n <= 0 {
        1
    } else if gates[n - 1] is Other {
        col_size(gates, n - 1)
    } else {
        col_size(gates, n - 1) * crate::gates::gate_rows(gates[n - 1])
    }
}

/// The state evolution of the measurement side effects of one column:
/// each `M` cell measures its own track, in track order; every other
/// cell leaves the state alone.
pub open spec fn meas_chain(
    gates: Seq<Gate>,
    n: int,
    len: int,
    v0: Seq<ComplexNumber>,
    v1: Seq<ComplexNumber>,
) -> bool
    decreases n,
{
    if n <= 0 {
        v0 == v1
    } else if gates[n - 1] is M {
        exists|vm: Seq<ComplexNumber>, u: int, b: int|
            meas_chain(gates, n - 1, len, v0, vm) && 0 <= u < SCALE && #[trigger] ms_post(
                vm,
                v1,
                reg_size((len - (n - 1)) as nat) as int,
                reg_size((len - (n - 1)) as nat) as int / 2,
                u,
                b,
            )
    } else {
        meas_chain(gates, n - 1, len, v0, v1)
    }
}

/// Every gate in the column has its angle in range.
pub open spec fn column_gates_ok(gates: Seq<Gate>) -> bool {
    forall|i: int| 0 <= i < gates.len() ==> crate::gates::gate_ok(#[trigger] gates[i])
}

/// No measurement marker stands in the column.
pub open spec fn column_no_m(gates: Seq<Gate>) -> bool {
    forall|i: int| 0 <= i < gates.len() ==> !((#[trigger] gates[i]) is M)
}

/// Every cell's matrix is pinned exactly: neither a measurement
/// marker nor a parameterized rotation stands in the column.
pub open spec fn column_fixed(gates: Seq<Gate>) -> bool {
    forall|i: int|
        0 <= i < gates.len() ==> !((#[trigger] gates[i]) is M) && !(gates[i] is P) && !(
        gates[i] is RX) && !(gates[i] is RY) && !(gates[i] is RZ)
}

/// A fixed gate's matrix description pins it: two matrices meeting it
/// are equal.
pub proof fn lemma_gate_matrix_unique(
    g: Gate,
    a: Seq<Seq<ComplexNumber>>,
    b: Seq<Seq<ComplexNumber>>,
)
    requires
        crate::gates::gate_matrix_ok(g, a),
        crate::gates::gate_matrix_ok(g, b),
        !(g is P),
        !(g is RX),
        !(g is RY),
        !(g is RZ),
    ensures
        a == b,
{
    let n = crate::gates::gate_rows(g);
    if g is Other {
        assert(a == crate::matrix::one_by_one() && b == crate::matrix::one_by_one());
    } else {
        assert forall|i: int| 0 <= i < n implies a[i] =~= b[i] by {
            assert forall|j: int| 0 <= j < n implies a[i][j] == b[i][j] by {
                match g {
                    Gate::I => {},
                    Gate::X => {},
                    Gate::Y => {},
                    Gate::Z => {},
                    Gate::H => {},
                    Gate::M => {},
                    Gate::S => {},
                    Gate::CNOT => {},
                    Gate::CZ => {},
                    Gate::SWAP => {},
                    Gate::CCX => {},
                    Gate::CCCX => {},
                    Gate::CSWAP => {},
                    _ => {
                        assert(false);
                    },
                }
            }
        }
        assert(a =~= b);
    }
}

/// A fixed column's composite is pinned: two matrices meeting
/// `column_ok` are equal.
pub proof fn lemma_column_ok_unique(
    gates: Seq<Gate>,
    n: int,
    m1: Seq<Seq<ComplexNumber>>,
    m2: Seq<Seq<ComplexNumber>>,
)
    requires
        column_fixed(gates),
        0 <= n <= gates.len(),
        column_ok(gates, n, m1),
        column_ok(gates, n, m2),
    ensures
        m1 == m2,
    decreases n,
{
    if n > 0 {
        if gates[n - 1] is Other {
            lemma_column_ok_unique(gates, n - 1, m1, m2);
        } else {
            let (gm1, prev1) = choose|gm1: Seq<Seq<ComplexNumber>>, prev1: Seq<Seq<ComplexNumber>>|
                crate::gates::gate_matrix_ok(gates[n - 1], gm1) && column_ok(gates, n - 1, prev1)
                    && m1 == #[trigger] kron_spec(prev1, gm1);
            let (gm2, prev2) = choose|gm2: Seq<Seq<ComplexNumber>>, prev2: Seq<Seq<ComplexNumber>>|
                crate::gates::gate_matrix_ok(gates[n - 1], gm2) && column_ok(gates, n - 1, prev2)
                    && m2 == #[trigger] kron_spec(prev2, gm2);
            lemma_gate_matrix_unique(gates[n - 1], gm1, gm2);
            lemma_column_ok_unique(gates, n - 1, prev1, prev2);
        }
    }
}

/// Builds the composite operator of one column by folding the
/// Kronecker product over its entries, skipping placeholders. Fails
/// when the composite outgrows the largest supported register.
pub fn compose_column(gates: &Vec<Gate>) -> (r: Result<Matrix, SimError>)
    requires
        column_gates_ok(gates@),
    ensures
        r is Err ==> r == Err::<Matrix, SimError>(SimError::DimensionMismatch),
        r is Ok <==> col_size(gates@, gates@.len() as int) <= 65536,
        r is Ok ==> mat_wf(&r->Ok_0) && crate::matrix::mat_unit(&r->Ok_0) && (r->Ok_0).rows
            == col_size(gates@, gates@.len() as int) && (r->Ok_0).rows == (r->Ok_0).cols
            && column_ok(gates@, gates@.len() as int, mat_view(&r->Ok_0)),
{
    let n: usize = gates.len();
    let mut full: Matrix = Matrix::scalar_one();
    let mut idx: usize = 0;
    while idx < n
        invariant
            column_gates_ok(gates@),
            n == gates@.len(),
            idx <= n,
            mat_wf(&full),
            crate::matrix::mat_unit(&full),
            full.rows == full.cols,
            full.rows == col_size(gates@, idx as int),
            full.rows <= 65536,
            column_ok(gates@, idx as int, mat_view(&full)),
        decreases n - idx,
    {
        let g: &Gate = &gates[idx];
        if g.is_placeholder() {
            idx = idx + 1;
        } else {
            proof {
                assert(crate::gates::gate_ok(gates@[idx as int]));
            }
            let gm: Matrix = g.to_matrix();
            if full.rows > 65536 / gm.rows {
                proof {
                    lemma_col_size_monotone(gates@, idx as int + 1, n as int);
                    assert(col_size(gates@, idx as int + 1) == col_size(gates@, idx as int)
                        * crate::gates::gate_rows(gates@[idx as int]));
                    assert(col_size(gates@, idx as int + 1) > 65536) by (nonlinear_arith)
                        requires
                            col_size(gates@, idx as int + 1) == col_size(gates@, idx as int)
                                * crate::gates::gate_rows(gates@[idx as int]),
                            col_size(gates@, idx as int) > (65536 as int) / (crate::gates::gate_rows(
                                gates@[idx as int],
                            )),
                            1 <= crate::gates::gate_rows(gates@[idx as int]) <= 16,
                            col_size(gates@, idx as int) >= 1,
                    ;
                }
                return Err(SimError::DimensionMismatch);
            }
            proof {
                assert(full.rows * gm.rows <= 65536) by (nonlinear_arith)
                    requires
                        full.rows <= (65536 as int) / (gm.rows as int),
                        1 <= gm.rows <= 16,
                        full.rows >= 0,
                ;
            }
            let next: Matrix = full.kronecker(&gm);
            proof {
                assert(column_ok(gates@, idx as int + 1, mat_view(&next)));
            }
            full = next;
            idx = idx + 1;
        }
    }
    Ok(full)
}

/// The composite's size never shrinks as the column extends.
pub proof fn lemma_col_size_monotone(gates: Seq<Gate>, a: int, b: int)
    requires
        0 <= a <= b,
    ensures
        1 <= col_size(gates, a) <= col_size(gates, b),
    decreases b,
{
    if a == b {
        lemma_col_size_pos(gates, a);
    } else {
        lemma_col_size_monotone(gates, a, b - 1);
        lemma_col_size_pos(gates, b - 1);
        if !(gates[b - 1] is Other) {
            assert(col_size(gates, b) == col_size(gates, b - 1) * crate::gates::gate_rows(
                gates[b - 1],
            ));
            assert(col_size(gates, b - 1) * crate::gates::gate_rows(gates[b - 1]) >= col_size(
                gates,
                b - 1,
            )) by (nonlinear_arith)
                requires
                    col_size(gates, b - 1) >= 1,
                    crate::gates::gate_rows(gates[b - 1]) >= 1,
            ;
        }
    }
}

/// A column composite always has at least one row.
pub proof fn lemma_col_size_pos(gates: Seq<Gate>, n: int)
    ensures
        col_size(gates, n) >= 1,
    decreases n,
{
    if n > 0 {
        lemma_col_size_pos(gates, n - 1);
        if !(gates[n - 1] is Other) {
            assert(col_size(gates, n - 1) * crate::gates::gate_rows(gates[n - 1]) >= 1)
                by (nonlinear_arith)
                requires
                    col_size(gates, n - 1) >= 1,
                    crate::gates::gate_rows(gates[n - 1]) >= 1,
            ;
        }
    }
}

impl QubitSystem {
    /// Applies a single gate at the given track by assembling the
    /// full-register operator from identity factors around it.
    pub fn apply_gate(&mut self, target: usize, matrix: Matrix) -> (r: Result<(), SimError>)
        requires
            sys_wf(&*old(self)),
            mat_wf(&matrix),
            crate::matrix::mat_unit(&matrix),
            matrix.rows == matrix.cols,
            matrix.rows == 2 || matrix.rows == 4 || matrix.rows == 8 || matrix.rows == 16,
            target < old(self).len,
        ensures
            final(self).len == old(self).len,
            r is Err ==> final(self).values@ == old(self).values@,
            r is Ok ==> sys_wf(final(self)) && final(self).values@ == dot_view(
                targeted_full(
                    old(self).len as int,
                    target as int,
                    mat_view(&matrix),
                    mat_span(matrix.rows as int),
                    0,
                    crate::matrix::one_by_one(),
                    16,
                ),
                old(self).values@,
            ),
            r is Ok <==> targeted_full(
                old(self).len as int,
                target as int,
                mat_view(&matrix),
                mat_span(matrix.rows as int),
                0,
                crate::matrix::one_by_one(),
                16,
            ).len() == old(self).values@.len() && vec_amp(
                dot_view(
                    targeted_full(
                        old(self).len as int,
                        target as int,
                        mat_view(&matrix),
                        mat_span(matrix.rows as int),
                        0,
                        crate::matrix::one_by_one(),
                        16,
                    ),
                    old(self).values@,
                ),
            ),
    {
        let len: usize = self.len;
        proof {
            lemma_reg_size_bounds(self.len as nat);
        }
        let span: usize = if matrix.rows == 2 {
            1
        } else if matrix.rows == 4 {
            2
        } else if matrix.rows == 8 {
            3
        } else {
            4
        };
        proof {
            reveal_with_fuel(reg_size, 6);
            assert(reg_size(span as nat) == matrix.rows);
        }
        let ghost gview = mat_view(&matrix);
        let ghost tm = targeted_full(
            len as int,
            target as int,
            gview,
            span as int,
            0,
            crate::matrix::one_by_one(),
            16,
        );
        let mut full: Matrix = Matrix::scalar_one();
        let mut slot: usize = 0;
        let ghost mut fuel: nat = 16nat;
        while slot < len
            invariant
                sys_wf(self),
                self.values@ == old(self).values@,
                self.len == old(self).len,
                len == self.len,
                len <= 12,
                mat_wf(&matrix),
                crate::matrix::mat_unit(&matrix),
                matrix.rows == matrix.cols,
                matrix.rows == 2 || matrix.rows == 4 || matrix.rows == 8 || matrix.rows == 16,
                reg_size(span as nat) == matrix.rows,
                1 <= span <= 4,
                gview == mat_view(&matrix),
                mat_wf(&full),
                crate::matrix::mat_unit(&full),
                full.rows == full.cols,
                full.rows == reg_size(slot as nat),
                slot <= len + 3,
                fuel + slot >= 16,
                fuel <= 16,
                targeted_full(
                    len as int,
                    target as int,
                    gview,
                    span as int,
                    slot as int,
                    mat_view(&full),
                    fuel,
                ) == tm,
            decreases fuel,
        {
            proof {
                lemma_reg_size_monotone(slot as nat, 11);
                reveal_with_fuel(reg_size, 13);
                assert(reg_size(11) == 2048);
            }
            let next: Matrix;
            let new_slot: usize;
            if slot == target {
                proof {
                    assert(full.rows * matrix.rows <= 65536 && full.cols * matrix.cols <= 65536)
                        by (nonlinear_arith)
                        requires
                            full.rows <= 2048,
                            full.cols == full.rows,
                            matrix.rows <= 16,
                            matrix.cols == matrix.rows,
                    ;
                }
                next = full.kronecker(&matrix);
                new_slot = slot + span;
                proof {
                    lemma_reg_size_add(slot as nat, span as nat);
                }
            } else {
                let id2: Matrix = Matrix::identity2();
                proof {
                    assert(full.rows * 2 <= 65536) by (nonlinear_arith)
                        requires
                            full.rows <= 2048,
                    ;
                    assert forall|p: int| 0 <= p < 2 implies mat_view(&id2)[p] =~= id2_view()[p] by {
                        assert(mat_view(&id2)[p] == id2.value@[p]@);
                        assert(ent(&id2, p, 0) == crate::gates::id_entry(p, 0));
                        assert(ent(&id2, p, 1) == crate::gates::id_entry(p, 1));
                    }
                    assert(mat_view(&id2) =~= id2_view());
                }
                next = full.kronecker(&id2);
                new_slot = slot + 1;
                proof {
                    lemma_reg_size_add(slot as nat, 1);
                    reveal_with_fuel(reg_size, 2);
                }
            }
            slot = new_slot;
            full = next;
            proof {
                fuel = (fuel - 1) as nat;
            }
        }
        proof {
            assert(tm == mat_view(&full));
            if full.rows != self.values.len() {
                assert(tm.len() != old(self).values@.len());
            }
        }
        let r = self.apply_full_gate(full);
        proof {
            lemma_dot_spec_view(&full, old(self).values@);
        }
        match r {
            Ok(()) => Ok(()),
            Err(e) => Err(e),
        }
    }

    /// Applies a 2x2 gate to every track at once: the operator is the
    /// gate's Kronecker power.
    pub fn apply_gate_all(&mut self, matrix: Matrix) -> (r: Result<(), SimError>)
        requires
            sys_wf(&*old(self)),
            mat_wf(&matrix),
            crate::matrix::mat_unit(&matrix),
            matrix.rows == 2,
            matrix.cols == 2,
        ensures
            final(self).len == old(self).len,
            r is Err ==> final(self).values@ == old(self).values@,
            r is Ok ==> sys_wf(final(self)) && final(self).values@ == dot_view(
                kron_power(mat_view(&matrix), old(self).len as int, crate::matrix::one_by_one()),
                old(self).values@,
            ),
            r is Ok <==> vec_amp(
                dot_view(
                    kron_power(
                        mat_view(&matrix),
                        old(self).len as int,
                        crate::matrix::one_by_one(),
                    ),
                    old(self).values@,
                ),
            ),
    {
        let len: usize = self.len;
        proof {
            lemma_reg_size_bounds(self.len as nat);
        }
        let ghost gview = mat_view(&matrix);
        let ghost tm = kron_power(gview, len as int, crate::matrix::one_by_one());
        let mut full: Matrix = Matrix::scalar_one();
        let mut i: usize = 0;
        while i < len
            invariant
                sys_wf(self),
                self.values@ == old(self).values@,
                self.len == old(self).len,
                len == self.len,
                len <= 12,
                mat_wf(&matrix),
                crate::matrix::mat_unit(&matrix),
                matrix.rows == 2,
                matrix.cols == 2,
                gview == mat_view(&matrix),
                mat_wf(&full),
                crate::matrix::mat_unit(&full),
                full.rows == full.cols,
                full.rows == reg_size(i as nat),
                i <= len,
                kron_power(gview, (len - i) as int, mat_view(&full)) == tm,
            decreases len - i,
        {
            proof {
                lemma_reg_size_bounds(i as nat);
                lemma_reg_size_bounds((i + 1) as nat);
                assert(full.rows * matrix.rows <= 65536 && full.cols * matrix.cols <= 65536)
                    by (nonlinear_arith)
                    requires
                        full.rows <= 4096,
                        full.cols <= 4096,
                        matrix.rows == 2,
                        matrix.cols == 2,
                ;
            }
            let next: Matrix = full.kronecker(&matrix);
            full = next;
            i = i + 1;
        }
        let r = self.apply_full_gate(full);
        proof {
            lemma_dot_spec_view(&full, old(self).values@);
        }
        match r {
            Ok(()) => Ok(()),
            Err(e) => Err(e),
        }
    }

    /// Runs one column: performs the measurement side effects of its
    /// `M` cells in track order, composes the remaining cells into one
    /// full-register operator (placeholders contribute nothing), and
    /// applies it. Returns the measured tracks with their outcomes.
    pub fn apply_gates(&mut self, gates: Vec<Gate>) -> (r: Result<Vec<(usize, usize)>, SimError>)
        requires
            sys_wf(&*old(self)),
            column_gates_ok(gates@),
        ensures
            final(self).len == old(self).len,
            sys_wf(final(self)),
            r is Ok ==> exists|vm: Seq<ComplexNumber>, m: Seq<Seq<ComplexNumber>>|
                #[trigger] meas_chain(
                    gates@,
                    gates@.len() as int,
                    old(self).len as int,
                    old(self).values@,
                    vm,
                ) && column_ok(gates@, gates@.len() as int, m) && final(self).values@
                    == #[trigger] dot_view(m, vm),
            r is Ok ==> forall|k: int|
                0 <= k < (r->Ok_0)@.len() ==> ((#[trigger] (r->Ok_0)@[k]).0 < gates@.len()
                    && gates@[(r->Ok_0)@[k].0 as int] is M && ((r->Ok_0)@[k].1 == 0 || (
                r->Ok_0)@[k].1 == 1)),
            r is Err ==> r == Err::<Vec<(usize, usize)>, SimError>(SimError::DimensionMismatch)
                || r == Err::<Vec<(usize, usize)>, SimError>(SimError::NonNormalState),
            (forall|i: int| 0 <= i < gates@.len() && (#[trigger] gates@[i]) is M ==> i < old(self).len)
                && col_size(gates@, gates@.len() as int) == old(self).values@.len() ==> r != Err::<
                Vec<(usize, usize)>,
                SimError,
            >(SimError::DimensionMismatch),
            column_no_m(gates@) ==> (r is Err ==> final(self).values@ == old(self).values@),
            column_no_m(gates@) ==> (r == Err::<Vec<(usize, usize)>, SimError>(
                SimError::DimensionMismatch,
            ) <==> col_size(gates@, gates@.len() as int) != old(self).values@.len()),
            column_fixed(gates@) ==> (r is Ok <==> col_size(gates@, gates@.len() as int) == old(
                self,
            ).values@.len() && exists|mm: Seq<Seq<ComplexNumber>>|
                column_ok(gates@, gates@.len() as int, mm) && vec_amp(
                    #[trigger] dot_view(mm, old(self).values@),
                )),
            column_fixed(gates@) && r is Ok ==> forall|mm: Seq<Seq<ComplexNumber>>|
                #[trigger] column_ok(gates@, gates@.len() as int, mm) ==> final(self).values@
                    == dot_view(mm, old(self).values@),
    {
        let ghost v0 = self.values@;
        let n: usize = gates.len();
        let mut measured: Vec<(usize, usize)> = Vec::new();
        let mut idx: usize = 0;
        while idx < n
            invariant
                sys_wf(self),
                self.len == old(self).len,
                column_gates_ok(gates@),
                n == gates@.len(),
                idx <= n,
                v0 == old(self).values@,
                meas_chain(gates@, idx as int, self.len as int, v0, self.values@),
                column_no_m(gates@) ==> self.values@ == v0,
                forall|k: int|
                    0 <= k < measured@.len() ==> ((#[trigger] measured@[k]).0 < gates@.len()
                        && gates@[measured@[k].0 as int] is M && (measured@[k].1 == 0
                        || measured@[k].1 == 1)),
            decreases n - idx,
        {
            let g: &Gate = &gates[idx];
            if g.is_measure() {
                if idx >= self.len {
                    proof {
                        assert(gates@[idx as int] is M && !(idx < old(self).len));
                    }
                    return Err(SimError::DimensionMismatch);
                }
                let ghost vprev = self.values@;
                let b: usize = match self.measure_single(idx) {
                    Ok(b) => b,
                    Err(e) => {
                        return Err(e);
                    },
                };
                proof {
                    let u = choose|u: int|
                        0 <= u < SCALE && #[trigger] ms_post(
                            vprev,
                            self.values@,
                            reg_size((self.len - idx) as nat) as int,
                            reg_size((self.len - idx) as nat) as int / 2,
                            u,
                            b as int,
                        );
                    assert(meas_chain(gates@, idx as int + 1, self.len as int, v0, self.values@));
                }
                measured.push((idx, b));
            } else {
                proof {
                    assert(meas_chain(gates@, idx as int + 1, self.len as int, v0, self.values@));
                }
            }
            idx = idx + 1;
        }
        let ghost vm = self.values@;
        proof {
            lemma_reg_size_bounds(self.len as nat);
            lemma_col_size_monotone(gates@, 0, n as int);
        }
        let full: Matrix = match compose_column(&gates) {
            Ok(m) => m,
            Err(e) => {
                proof {
                    assert(col_size(gates@, n as int) > 65536);
                }
                return Err(e);
            },
        };
        if full.len() != self.values.len() {
            return Err(SimError::DimensionMismatch);
        }
        let ghost fview = crate::matrix::mat_view(&full);
        let r = self.apply_full_gate(full);
        proof {
            lemma_dot_spec_view(&full, vm);
            if column_fixed(gates@) {
                assert forall|mm: Seq<Seq<ComplexNumber>>|
                    #[trigger] column_ok(gates@, n as int, mm) implies dot_view(mm, v0)
                    == dot_view(fview, v0) by {
                    lemma_column_ok_unique(gates@, n as int, mm, fview);
                }
            }
        }
        match r {
            Ok(()) => Ok(measured),
            Err(e) => Err(e),
        }
    }
}

/// The register `|0...0>` with `n` tracks.
pub fn zero_register(n: usize) -> (r: QubitSystem)
    requires
        1 <= n <= 12,
    ensures
        sys_wf(&r),
        r.len == n,
        r.values@ == basis_state(reg_size(n as nat), 0),
{
    proof {
        lemma_reg_size_bounds(n as nat);
        lemma_basis_unit();
    }
    let size: usize = reg_size_exec(n);
    let mut values: Vec<ComplexNumber> = Vec::new();
    values.push(ComplexNumber::one());
    let mut i: usize = 1;
    while i < size
        invariant
            1 <= i <= size,
            values@.len() == i,
            forall|p: int| 0 <= p < i ==> #[trigger] values@[p] == basis_state(size as nat, 0)[p],
            forall|p: int| 0 <= p < i ==> c_amp(#[trigger] values@[p]),
        decreases size - i,
    {
        proof {
            lemma_basis_unit();
        }
        values.push(ComplexNumber::zero());
        i = i + 1;
    }
    proof {
        assert(values@ =~= basis_state(size as nat, 0));
    }
    QubitSystem { values, len: n }
}

/// The state `v1` arises from `v0` by at most `k` single-track
/// measurements (with successful renormalization each time).
pub open spec fn meas_star(
    len: int,
    v0: Seq<ComplexNumber>,
    v1: Seq<ComplexNumber>,
    k: nat,
) -> bool
    decreases k,
{
    if k == 0 {
        v0 == v1
    } else {
        v0 == v1 || exists|vm: Seq<ComplexNumber>, t: int, u: int, b: int|
            meas_star(len, v0, vm, (k - 1) as nat) && 0 <= t < len && 0 <= u < SCALE
                && #[trigger] ms_post(
                vm,
                v1,
                reg_size((len - t) as nat) as int,
                reg_size((len - t) as nat) as int / 2,
                u,
                b,
            )
    }
}

/// A measurement sequence of `k` steps is also one of any larger
/// number of steps, which makes the step count in `meas_star` an
/// upper bound.
pub proof fn lemma_meas_star_mono(len: int, v0: Seq<ComplexNumber>, v1: Seq<ComplexNumber>, k: nat, k2: nat)
    requires
        meas_star(len, v0, v1, k),
        k <= k2,
    ensures
        meas_star(len, v0, v1, k2),
    decreases k2,
{
    if k2 > k {
        lemma_meas_star_mono(len, v0, v1, k, (k2 - 1) as nat);
        if v0 != v1 {
            assert(k2 - 1 > 0);
            let (vm, t, u, b) = choose|vm: Seq<ComplexNumber>, t: int, u: int, b: int|
                meas_star(len, v0, vm, (k2 - 2) as nat)
                    && 0 <= t < len && 0 <= u < SCALE && #[trigger] ms_post(
                    vm,
                    v1,
                    reg_size((len - t) as nat) as int,
                    reg_size((len - t) as nat) as int / 2,
                    u,
                    b,
                );
            lemma_meas_star_mono(len, v0, vm, (k2 - 2) as nat, (k2 - 1) as nat);
            assert(meas_star(len, v0, vm, (k2 - 1) as nat) && 0 <= t < len && 0 <= u < SCALE
                && ms_post(
                vm,
                v1,
                reg_size((len - t) as nat) as int,
                reg_size((len - t) as nat) as int / 2,
                u,
                b,
            ));
        }
    }
}

impl QubitSystem {
    /// Renders the state as a list of kets.
    pub fn pretty_print(&self) -> (r: String)
        requires
            sys_wf(self),
        ensures
            r@ == crate::display::pretty_spec(
                self.values@,
                self.len as nat,
                self.values@.len() as int,
            ),
    {
        crate::display::pretty_print(&self.values, self.len)
    }
}

} // verus!
