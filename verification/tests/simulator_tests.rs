use quantum::circuit::CircuitManager;
use quantum::complex::{ComplexNumber, EPS, SCALE};
use quantum::display::{fx_to_string, idx_to_qubit, log2, pretty_print};
use quantum::gates::Gate;
use quantum::matrix::Matrix;
use quantum::qubit::{Qubit, QubitSystem, SimError};
use quantum::trig::{cos_fx, exp_fx, sin_fx, HALF_PI_FX, PI_FX};

const HALF_SQRT_2: i64 = 46341;

fn approx(a: i64, b: i64) -> bool {
    (a - b).abs() < EPS
}

fn placeholder() -> Gate {
    Gate::Other(String::new())
}

/// Pauli X on `|0>`: one column `[X]`, one step.
#[test]
fn scenario_pauli_x() {
    let mut m = CircuitManager::new();
    m.set_example(vec![vec![Gate::X]], vec![]);
    let report = m.step().unwrap();
    assert!(approx(report.amplitudes[0].real, 0));
    assert!(approx(report.amplitudes[1].real, SCALE));
    assert!(approx(report.amplitudes[0].imaginary, 0));
    assert!(approx(report.amplitudes[1].imaginary, 0));
    let (x, y, z) = report.bloch[0];
    assert!(approx(x, 0) && approx(y, 0) && approx(z, -SCALE));
}

/// Hadamard on `|0>`: even superposition, Bloch `(1, 0, 0)`.
#[test]
fn scenario_hadamard() {
    let mut m = CircuitManager::new();
    m.set_example(vec![vec![Gate::H]], vec![]);
    let report = m.step().unwrap();
    assert!(approx(report.amplitudes[0].real, HALF_SQRT_2));
    assert!(approx(report.amplitudes[1].real, HALF_SQRT_2));
    let (x, y, z) = report.bloch[0];
    assert!(approx(x, SCALE) && approx(y, 0) && approx(z, 0));
}

fn bell_manager() -> CircuitManager {
    let mut m = CircuitManager::new();
    m.set_example(
        vec![vec![Gate::H, Gate::I], vec![Gate::CNOT, placeholder()]],
        vec![],
    );
    m
}

/// The Bell state: `H` then `CNOT`, both reductions maximally mixed.
#[test]
fn scenario_bell_state() {
    let mut m = bell_manager();
    m.step().unwrap();
    let report = m.step().unwrap();
    assert!(approx(report.amplitudes[0].real, HALF_SQRT_2));
    assert!(approx(report.amplitudes[1].real, 0));
    assert!(approx(report.amplitudes[2].real, 0));
    assert!(approx(report.amplitudes[3].real, HALF_SQRT_2));
    for t in 0..2 {
        let (x, y, z) = report.bloch[t];
        assert!(approx(x, 0) && approx(y, 0) && approx(z, 0));
        // The Bloch magnitude of a maximally mixed reduction is near zero.
        assert!(x * x + y * y + z * z < EPS * EPS);
    }
}

/// Measuring one half of a Bell pair pins the other half.
#[test]
fn scenario_bell_measurement() {
    for _ in 0..8 {
        let mut m = bell_manager();
        m.step().unwrap();
        m.step().unwrap();
        let b0 = m.system.measure_single(0).unwrap();
        let b1 = m.system.measure_single(1).unwrap();
        assert_eq!(b0, b1);
    }
}

/// Quantum teleportation: the `X`-prepared state of track 0 arrives
/// on track 2, so its Bloch vector points to `|1>`.
#[test]
fn scenario_teleportation() {
    let mut m = CircuitManager::new();
    m.set_example(
        vec![
            vec![Gate::X, Gate::H, Gate::I],
            vec![Gate::I, Gate::CNOT, placeholder()],
            vec![Gate::CNOT, placeholder(), Gate::I],
            vec![Gate::H, Gate::I, Gate::I],
            vec![Gate::I, Gate::M, Gate::X],
            vec![Gate::M, Gate::I, Gate::Z],
            vec![Gate::I, Gate::I, Gate::I],
        ],
        vec![(4, 1, 2), (5, 0, 2)],
    );
    let mut last = None;
    for _ in 0..7 {
        last = Some(m.step().unwrap());
    }
    let report = last.unwrap();
    let (x, y, z) = report.bloch[2];
    assert!(approx(x, 0) && approx(y, 0) && approx(z, -SCALE));
}

/// Placing a gate over a multi-qubit gate's placeholder restores the
/// placeholder to the identity.
#[test]
fn scenario_placeholder_restoration() {
    let mut m = CircuitManager::new();
    m.add_register().unwrap();
    m.set_dragging(Gate::CNOT);
    m.handle_drop(0, 0).unwrap();
    assert!(matches!(m.gates[0][0], Gate::CNOT));
    assert!(matches!(m.gates[0][1], Gate::Other(_)));
    m.set_dragging(Gate::I);
    m.handle_drop(0, 0).unwrap();
    assert!(matches!(m.gates[0][0], Gate::I));
    assert!(matches!(m.gates[0][1], Gate::I));
}

/// A gate too wide for the tracks below the drop point is rejected
/// and the grid is unchanged.
#[test]
fn error_oversized_gate() {
    let mut m = CircuitManager::new();
    m.add_register().unwrap();
    m.set_dragging(Gate::CNOT);
    assert_eq!(m.handle_drop(0, 1), Err(SimError::OversizedGate));
    assert!(matches!(m.gates[0][1], Gate::I));
}

/// A full-register operator of the wrong size is rejected.
#[test]
fn error_dimension_mismatch() {
    let mut system = QubitSystem::new(vec![Qubit::zero(), Qubit::zero()]).unwrap();
    assert_eq!(
        system.apply_full_gate(Matrix::pauli_x()),
        Err(SimError::DimensionMismatch)
    );
}

/// A register without mass cannot be measured.
#[test]
fn error_non_normal_state() {
    let z = ComplexNumber::from_real(0);
    let mut system = QubitSystem::from_tensor(vec![z, z], 1);
    assert_eq!(system.measure(), Err(SimError::NonNormalState));
    assert_eq!(system.measure_single(0), Err(SimError::NonNormalState));
}

/// A register needs at least one qubit.
#[test]
fn error_empty_init() {
    assert_eq!(QubitSystem::new(vec![]).unwrap_err(), SimError::EmptyInit);
}

/// Two Hadamards cancel exactly; four Pauli gates square to the
/// identity on the basis states.
#[test]
fn unitarity_round_trips() {
    assert_eq!(Qubit::zero().hadamard().hadamard(), Qubit::zero());
    assert_eq!(Qubit::one().hadamard().hadamard(), Qubit::one());
    assert_eq!(Qubit::zero().pauli_x().pauli_x(), Qubit::zero());
    assert_eq!(Qubit::zero().pauli_y().pauli_y(), Qubit::zero());
    assert_eq!(Qubit::zero().pauli_z().pauli_z(), Qubit::zero());
}

/// The two groupings of a triple Kronecker product agree within the
/// rounding tolerance.
#[test]
fn kronecker_associativity() {
    let a = Matrix::hadamard();
    let b = Matrix::pauli_y();
    let c = Matrix::s();
    let left = a.kronecker(&b).kronecker(&c);
    let right = a.kronecker(&b.kronecker(&c));
    assert_eq!(left.len(), right.len());
    for i in 0..8 {
        for j in 0..8 {
            let l = left.get(i, j);
            let r = right.get(i, j);
            assert!((l.real - r.real).abs() <= 8);
            assert!((l.imaginary - r.imaginary).abs() <= 8);
        }
    }
}

/// The Kronecker product distributes over vectors:
/// `(A (x) B) (v (x) w) == (A v) (x) (B w)` within tolerance.
#[test]
fn kronecker_mixed_product() {
    let a = Matrix::hadamard();
    let b = Matrix::pauli_x();
    let v = Qubit::zero();
    let w = Qubit::new(ComplexNumber::from_real(46341), ComplexNumber::imag(46341));
    let joint = quantum::qubit::tensor_product(v.as_vec(), w.as_vec());
    let big = a.kronecker(&b);
    let lhs = big.dot(&joint);
    let av = v.dot_matrix(a);
    let bw = w.dot_matrix(b);
    let rhs = quantum::qubit::tensor_product(av.as_vec(), bw.as_vec());
    for k in 0..4 {
        assert!((lhs[k].real - rhs[k].real).abs() < EPS);
        assert!((lhs[k].imaginary - rhs[k].imaginary).abs() < EPS);
    }
}

/// Applying catalog gates keeps the state normalized.
#[test]
fn normalization_invariant() {
    let mut system = QubitSystem::new(vec![Qubit::zero(), Qubit::zero()]).unwrap();
    system.apply_gate(0, Matrix::hadamard()).unwrap();
    assert!(system.system_normal());
    system.apply_gate(0, Matrix::cnot()).unwrap();
    assert!(system.system_normal());
    system.apply_gate(1, Matrix::s()).unwrap();
    assert!(system.system_normal());
    system.apply_gate(0, Matrix::pauli_y()).unwrap();
    assert!(system.system_normal());
}

/// A pure single-qubit state has a Bloch vector of unit length.
#[test]
fn bloch_magnitude_pure() {
    let mut m = CircuitManager::new();
    m.set_example(vec![vec![Gate::H]], vec![]);
    let report = m.step().unwrap();
    let (x, y, z) = report.bloch[0];
    let mag = x * x + y * y + z * z;
    let unit = SCALE * SCALE;
    assert!((mag - unit).abs() < 300 * SCALE);
}

/// The density matrix has trace near one, and the partial trace
/// preserves it.
#[test]
fn density_trace() {
    let mut system = QubitSystem::new(vec![Qubit::zero(), Qubit::zero()]).unwrap();
    system.apply_gate(0, Matrix::hadamard()).unwrap();
    system.apply_gate(0, Matrix::cnot()).unwrap();
    let rho = system.density_matrix();
    let mut trace: i64 = 0;
    for i in 0..4 {
        trace += rho.get(i, i).real;
    }
    assert!((trace - SCALE).abs() < EPS);
    let reduced = quantum::qubit::partial_trace(rho, 0, 2).unwrap();
    let mut rtrace: i64 = 0;
    for i in 0..2 {
        rtrace += reduced.get(i, i).real;
    }
    assert!((rtrace - SCALE).abs() < EPS);
}

/// The fixed-point trigonometry lands on the catalog's key values.
#[test]
fn trig_values() {
    assert_eq!(cos_fx(0), SCALE);
    assert_eq!(sin_fx(0), 0);
    assert!(sin_fx(HALF_PI_FX).abs() - SCALE < 300);
    assert!(cos_fx(PI_FX) + SCALE < 300);
    assert!((exp_fx(0) - SCALE).abs() < 4);
    assert!((exp_fx(SCALE) - 178145).abs() < 300);
}

/// The phase gate at pi/2 behaves as the S gate.
#[test]
fn phase_matches_s() {
    let q = Qubit::new(ComplexNumber::from_real(46341), ComplexNumber::from_real(46341));
    let via_phase = q.phase(HALF_PI_FX);
    let via_s = q.dot_matrix(Matrix::s());
    assert_eq!(via_phase, via_s);
}

/// Rendering helpers: binary labels, fixed-point decimals, and the
/// ket list.
#[test]
fn rendering() {
    assert_eq!(log2(8), 3);
    assert_eq!(idx_to_qubit(5, 3).as_str(), "101");
    assert_eq!(fx_to_string(SCALE).as_str(), "1.0000");
    assert_eq!(fx_to_string(-SCALE / 2).as_str(), "-0.5000");
    let one = ComplexNumber::from_real(SCALE);
    let zero = ComplexNumber::from_real(0);
    let s = pretty_print(&vec![one, zero], 1);
    assert_eq!(s.as_str(), "1.0000 |0\u{27e9}");
    let h = ComplexNumber::from_real(46341);
    let s2 = pretty_print(&vec![h, h], 1);
    assert_eq!(s2.as_str(), "0.7071 |0\u{27e9}, 0.7071 |1\u{27e9}");
}

/// Measuring twice in a row gives the same answer on every track of
/// a freshly superposed register.
#[test]
fn measurement_collapse_repeat() {
    for _ in 0..10 {
        let mut system = QubitSystem::new(vec![Qubit::zero(), Qubit::zero()]).unwrap();
        system.apply_gate(0, Matrix::hadamard()).unwrap();
        system.apply_gate(1, Matrix::hadamard()).unwrap();
        let b = system.measure_single(0).unwrap();
        assert_eq!(system.measure_single(0).unwrap(), b);
        let c = system.measure_single(1).unwrap();
        assert_eq!(system.measure_single(1).unwrap(), c);
    }
}
