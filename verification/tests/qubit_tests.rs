use quantum::complex::{ComplexNumber, SCALE};
use quantum::matrix::Matrix;
use quantum::qubit::{Qubit, QubitSystem};
use quantum::trig::PI_FX;

// 1/sqrt(2) and 1/sqrt(3) in the fixed-point encoding.
const HALF_SQRT_2: i64 = 46341;
const SQRT_THIRD: i64 = 37837;

#[test]
pub fn valid_qubits() {
    assert!(Qubit::one().is_normal());
    assert!(Qubit::zero().is_normal());

    assert!(
        Qubit::new(ComplexNumber::from_real(HALF_SQRT_2), ComplexNumber::from_real(HALF_SQRT_2))
            .is_normal()
    );
    assert!(
        Qubit::new(ComplexNumber::from_real(HALF_SQRT_2), ComplexNumber::imag(HALF_SQRT_2))
            .is_normal()
    );
}

fn flip_matrix() -> Matrix {
    Matrix::new(vec![
        vec![ComplexNumber::from_real(0), ComplexNumber::from_real(SCALE)],
        vec![ComplexNumber::from_real(SCALE), ComplexNumber::from_real(0)],
    ])
}

#[test]
pub fn dot_product() {
    assert_eq!(Qubit::zero().dot_matrix(flip_matrix()), Qubit::one());
    assert_eq!(Qubit::one().dot_matrix(flip_matrix()), Qubit::zero());
}

#[test]
pub fn hadamard() {
    assert_eq!(
        Qubit::zero().hadamard(),
        Qubit::new(ComplexNumber::sqrt_half(), ComplexNumber::sqrt_half())
    );
    assert_eq!(
        Qubit::one().hadamard(),
        Qubit::new(ComplexNumber::sqrt_half(), ComplexNumber::from_real(-HALF_SQRT_2))
    );
}

#[test]
pub fn pauli() {
    // X gates
    assert_eq!(Qubit::zero().pauli_x(), Qubit::one());
    assert_eq!(Qubit::one().pauli_x(), Qubit::zero());

    // Y gates
    assert_eq!(
        Qubit::zero().pauli_y(),
        Qubit::new(ComplexNumber::new(0, 0), ComplexNumber::new(0, SCALE))
    );
    assert_eq!(
        Qubit::one().pauli_y(),
        Qubit::new(ComplexNumber::new(0, -SCALE), ComplexNumber::new(0, 0))
    );

    // Z gates
    assert_eq!(
        Qubit::zero().pauli_z(),
        Qubit::new(ComplexNumber::new(SCALE, 0), ComplexNumber::new(0, 0))
    );
    assert_eq!(
        Qubit::one().pauli_z(),
        Qubit::new(ComplexNumber::new(0, 0), ComplexNumber::new(-SCALE, 0))
    );
}

#[test]
pub fn phase_gate() {
    assert_eq!(Qubit::one().phase(PI_FX), Qubit::one().pauli_z());
}

#[test]
pub fn system_single_gate() {
    let mut system =
        QubitSystem::new(vec![Qubit::zero(), Qubit::one(), Qubit::zero()]).unwrap();

    system.apply_gate(1, Matrix::pauli_x()).unwrap()
}

#[test]
pub fn system_measure() {
    let mut system =
        QubitSystem::new(vec![Qubit::zero(), Qubit::one(), Qubit::zero()]).unwrap();
    assert_eq!(system.measure().unwrap(), vec![0, 1, 0]);

    system.apply_gate(1, Matrix::pauli_x()).unwrap();

    assert_eq!(system.measure().unwrap(), vec![0, 0, 0]);

    let mut system = QubitSystem::new(vec![Qubit::zero(), Qubit::one()]).unwrap();
    assert_eq!(system.measure().unwrap(), vec![0, 1]);
}

#[test]
pub fn superposition_measure() {
    let mut system =
        QubitSystem::new(vec![Qubit::zero(), Qubit::one(), Qubit::zero()]).unwrap();
    system.apply_gate_all(Matrix::pauli_x()).unwrap();

    println!("{:?}", system.measure().unwrap());
}

#[test]
pub fn cnot() {
    let mut system = QubitSystem::new(vec![Qubit::one(), Qubit::zero()]).unwrap();
    system.apply_gate(0, Matrix::cnot()).unwrap();

    assert_eq!(system.measure().unwrap(), vec![1, 1]);

    let mut system = QubitSystem::new(vec![Qubit::zero(), Qubit::zero()]).unwrap();
    system.apply_gate(0, Matrix::cnot()).unwrap();

    assert_eq!(system.measure().unwrap(), vec![0, 0]);
}

#[test]
pub fn swap() {
    let mut system = QubitSystem::new(vec![Qubit::zero(), Qubit::one()]).unwrap();
    system.apply_gate(0, Matrix::swap()).unwrap();

    assert_eq!(system.measure().unwrap(), vec![1, 0]);
}

#[test]
pub fn renormalize() {
    // A three-track register with equal mass on three basis states;
    // the joint vector is padded to its full length of eight.
    let z = ComplexNumber::from_real(0);
    let t = ComplexNumber::from_real(SQRT_THIRD);
    let mut system = QubitSystem::from_tensor(vec![t, z, z, t, z, z, t, z], 3);
    assert!(system.system_normal());
    system.measure_single(0).unwrap();
    assert!(system.system_normal());
}

#[test]
pub fn single_measure() {
    let mut system =
        QubitSystem::new(vec![Qubit::zero(), Qubit::one(), Qubit::zero()]).unwrap();
    assert_eq!(system.measure_single(0).unwrap(), 0);
    assert_eq!(system.measure_single(1).unwrap(), 1);
    assert_eq!(system.measure_single(2).unwrap(), 0);
}

#[test]
pub fn qubit_valid_qubits() {
    assert!(Qubit::one().is_normal());
    assert!(Qubit::zero().is_normal());

    assert!(
        Qubit::new(ComplexNumber::from_real(HALF_SQRT_2), ComplexNumber::from_real(HALF_SQRT_2))
            .is_normal()
    );
    assert!(
        Qubit::new(ComplexNumber::from_real(HALF_SQRT_2), ComplexNumber::imag(HALF_SQRT_2))
            .is_normal()
    );
}

#[test]
pub fn qubit_dot_product() {
    assert_eq!(Qubit::zero().dot_matrix(flip_matrix()), Qubit::one());
    assert_eq!(Qubit::one().dot_matrix(flip_matrix()), Qubit::zero());
}

#[test]
pub fn qubit_hadamard() {
    assert_eq!(
        Qubit::zero().hadamard(),
        Qubit::new(ComplexNumber::sqrt_half(), ComplexNumber::sqrt_half())
    );
    assert_eq!(
        Qubit::one().hadamard(),
        Qubit::new(ComplexNumber::sqrt_half(), ComplexNumber::from_real(-HALF_SQRT_2))
    );
}

#[test]
pub fn qubit_pauli() {
    assert_eq!(Qubit::zero().pauli_x(), Qubit::one());
    assert_eq!(Qubit::one().pauli_x(), Qubit::zero());

    assert_eq!(
        Qubit::zero().pauli_y(),
        Qubit::new(ComplexNumber::new(0, 0), ComplexNumber::new(0, SCALE))
    );
    assert_eq!(
        Qubit::one().pauli_y(),
        Qubit::new(ComplexNumber::new(0, -SCALE), ComplexNumber::new(0, 0))
    );

    assert_eq!(
        Qubit::zero().pauli_z(),
        Qubit::new(ComplexNumber::new(SCALE, 0), ComplexNumber::new(0, 0))
    );
    assert_eq!(
        Qubit::one().pauli_z(),
        Qubit::new(ComplexNumber::new(0, 0), ComplexNumber::new(-SCALE, 0))
    );
}

#[test]
pub fn qubit_phase_gate() {
    assert_eq!(Qubit::one().phase(PI_FX), Qubit::one().pauli_z());
}

#[test]
pub fn qubit_system_single_gate() {
    let mut system =
        QubitSystem::new(vec![Qubit::zero(), Qubit::one(), Qubit::zero()]).unwrap();

    system.apply_gate(1, Matrix::pauli_x()).unwrap()
}
