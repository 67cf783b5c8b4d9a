use vstd::prelude::*;

use crate::complex::{ComplexNumber, SCALE};
use crate::gates::{gate_like, gate_ok, Gate};
use crate::matrix::{mat_view, mat_wf, Matrix};
use crate::qubit::{
    basis_state, bloch_vector, column_gates_ok, column_ok, dot_view, meas_chain, meas_star,
    reg_size, sys_wf, QubitSystem, SimError,
};
use crate::trig::THETA_LIM;

verus! {

/// What one simulation step reports back: the amplitude vector after
/// the column, the Bloch coordinates of every track, and the
/// measurement outcomes performed during the step as `(track, bit)`
/// pairs.
pub struct StepReport {
    pub amplitudes: Vec<ComplexNumber>,
    pub bloch: Vec<(i64, i64, i64)>,
    pub measured: Vec<(usize, usize)>,
}

/// The circuit editor's state: a grid of gates (columns of one cell per
/// track), the classical control wires, the current drag payload, and
/// the simulated register.
pub struct CircuitManager {
    pub system: QubitSystem,
    pub gates: Vec<Vec<Gate>>,
    pub current_drag: Gate,
    pub dragging_wire: (bool, usize, usize),
    pub wires: Vec<(usize, usize, usize)>,
    pub registers: usize,
    pub step: usize,
}

/// Well-formedness of the whole manager: the register matches the
/// track count, every column spans every track, every angle is in
/// range, wires connect existing tracks, and the step counter is
/// within the grid.
pub open spec fn cm_wf(c: &CircuitManager) -> bool {
    &&& sys_wf(&c.system)
    &&& c.system.len == c.registers
    &&& 1 <= c.registers <= 12
    &&& c.gates@.len() >= 1
    &&& forall|i: int| 0 <= i < c.gates@.len() ==> (#[trigger] c.gates@[i])@.len() == c.registers
    &&& forall|i: int| 0 <= i < c.gates@.len() ==> column_gates_ok((#[trigger] c.gates@[i])@)
    &&& forall|w: int|
        0 <= w < c.wires@.len() ==> (#[trigger] c.wires@[w]).1 < c.registers && c.wires@[w].2
            < c.registers
    &&& c.dragging_wire.2 < c.registers
    &&& gate_ok(c.current_drag)
    &&& c.step <= c.gates@.len()
}

/// The first track at or after `from` in the column that is not a
/// placeholder (the column's length when all are).
pub open spec fn restore_end(col: Seq<Gate>, from: int) -> int
    decreases col.len() - from,
{
    if from < 0 || from >= col.len() {
        col.len() as int
    } else if col[from] is Other {
        restore_end(col, from + 1)
    } else {
        from
    }
}

/// A classical wire of column `col` ends on track `t`.
pub open spec fn wire_into(wires: Seq<(usize, usize, usize)>, col: int, t: int) -> bool {
    exists|w: int| 0 <= w < wires.len() && (#[trigger] wires[w]).0 == col && wires[w].2 == t
}

/// A classical wire of column `col` starts from track `src`.
pub open spec fn wire_from(wires: Seq<(usize, usize, usize)>, col: int, src: int) -> bool {
    exists|w: int| 0 <= w < wires.len() && (#[trigger] wires[w]).0 == col && wires[w].1 == src
}

/// One classical bit per wire: zero or one, and one (inert) for every
/// wire of another column.
pub open spec fn wire_bits_ok(
    wires: Seq<(usize, usize, usize)>,
    col: int,
    wbits: Seq<int>,
) -> bool {
    &&& wbits.len() == wires.len()
    &&& forall|w: int| 0 <= w < wires.len() ==> 0 <= #[trigger] wbits[w] <= 1
    &&& forall|w: int| 0 <= w < wires.len() && (#[trigger] wires[w]).0 != col ==> wbits[w] == 1
}

/// What one reported Bloch triple says of the state: when every step
/// of the iterated reduction onto track `q` stays within the entry
/// bound, the triple is read off the reduced 2x2 matrix; otherwise it
/// is the origin.
pub open spec fn bloch_entry_ok(
    t: (i64, i64, i64),
    dm: Seq<Seq<ComplexNumber>>,
    regs: int,
    q: int,
) -> bool {
    let keep = regs - 1 - q;
    let red = crate::qubit::bloch_chain(dm, keep, 0, regs);
    if crate::qubit::bloch_chain_ok(dm, keep, 0, regs) {
        t.0 == 2 * red[0][1].real && t.1 == 2 * red[0][1].imaginary && t.2 == red[0][0].real
            - red[1][1].real
    } else {
        t.0 == 0 && t.1 == 0 && t.2 == 0
    }
}

/// The whole reported Bloch list, track by track, against the state's
/// density matrix.
pub open spec fn bloch_list_ok(list: Seq<(i64, i64, i64)>, v: Seq<ComplexNumber>, regs: int) -> bool {
    &&& list.len() == regs
    &&& forall|q: int|
        0 <= q < regs ==> #[trigger] bloch_entry_ok(
            list[q],
            crate::qubit::density_view(v),
            regs,
            q,
        )
}

impl CircuitManager {
    /// A fresh editor: one track in `|0>`, one all-identity column.
    pub fn new() -> (r: CircuitManager)
        ensures
            cm_wf(&r),
            r.registers == 1,
            r.step == 0,
            r.gates@.len() == 1,
            r.gates@[0]@.len() == 1,
            r.gates@[0]@[0] is I,
            r.wires@.len() == 0,
            r.system.values@ == basis_state(2, 0),
            r.current_drag is I,
            r.dragging_wire == (false, 0usize, 0usize),
    {
        let system: QubitSystem = crate::qubit::zero_register(1);
        let mut column: Vec<Gate> = Vec::new();
        column.push(Gate::I);
        let mut gates: Vec<Vec<Gate>> = Vec::new();
        gates.push(column);
        proof {
            reveal_with_fuel(reg_size, 2);
        }
        CircuitManager {
            system,
            gates,
            current_drag: Gate::I,
            dragging_wire: (false, 0, 0),
            wires: Vec::new(),
            registers: 1,
            step: 0,
        }
    }

    /// The number of columns.
    pub fn gates_len(&self) -> (r: usize)
        ensures
            r == self.gates@.len(),
    {
        self.gates.len()
    }

    /// The number of tracks.
    pub fn registers_len(&self) -> (r: usize)
        ensures
            r == self.registers,
    {
        self.registers
    }

    /// The tracks of one column that hold a visible gate (everything
    /// but the placeholders).
    pub fn gates_range(&self, column: usize) -> (r: Vec<usize>)
        requires
            cm_wf(self),
            column < self.gates@.len(),
        ensures
            forall|k: int|
                0 <= k < r@.len() ==> (#[trigger] r@[k]) < self.registers && !(
                self.gates@[column as int]@[r@[k] as int] is Other),
            forall|t: int|
                0 <= t < self.registers && !(self.gates@[column as int]@[t] is Other)
                    ==> exists|k: int| 0 <= k < r@.len() && (#[trigger] r@[k]) == t,
    {
        let col: &Vec<Gate> = &self.gates[column];
        let n: usize = col.len();
        let mut r: Vec<usize> = Vec::new();
        let mut i: usize = 0;
        while i < n
            invariant
                cm_wf(self),
                column < self.gates@.len(),
                col@ == self.gates@[column as int]@,
                n == col@.len(),
                n == self.registers,
                i <= n,
                forall|k: int|
                    0 <= k < r@.len() ==> (#[trigger] r@[k]) < self.registers && !(
                    self.gates@[column as int]@[r@[k] as int] is Other),
                forall|t: int|
                    0 <= t < i && !(self.gates@[column as int]@[t] is Other) ==> exists|k: int|
                        0 <= k < r@.len() && (#[trigger] r@[k]) == t,
            decreases n - i,
        {
            let ghost r0 = r@;
            if !col[i].is_placeholder() {
                r.push(i);
                proof {
                    assert(r@[r@.len() - 1] == i);
                    assert forall|t: int|
                        0 <= t < i + 1 && !(self.gates@[column as int]@[t] is Other)
                            implies exists|k: int|
                            0 <= k < r@.len() && (#[trigger] r@[k]) == t by {
                        if t < i {
                            let k0 = choose|k0: int| 0 <= k0 < r0.len() && (#[trigger] r0[k0]) == t;
                            assert(r@[k0] == t);
                        } else {
                            assert(r@[r@.len() - 1] == t);
                        }
                    }
                }
            }
            i = i + 1;
        }
        r
    }

    /// Appends a track: every column gets an identity cell and the
    /// register a `|0>` factor. Rejected beyond twelve tracks.
    pub fn add_register(&mut self) -> (r: Result<(), SimError>)
        requires
            cm_wf(&*old(self)),
        ensures
            cm_wf(final(self)),
            r is Err <==> old(self).registers == 12,
            r is Err ==> *final(self) == *old(self) && r == Err::<(), SimError>(
                SimError::OversizedGate,
            ),
            r is Ok ==> {
                &&& final(self).registers == old(self).registers + 1
                &&& final(self).gates@.len() == old(self).gates@.len()
                &&& forall|i: int|
                    0 <= i < old(self).gates@.len() ==> (#[trigger] final(self).gates@[i])@ == old(self).gates@[i]@.push(Gate::I)
                &&& final(self).system.values@ == crate::qubit::tensor_spec(
                    old(self).system.values@,
                    seq![crate::complex::c_one(), crate::complex::c_zero()],
                )
            },
            final(self).step == old(self).step,
            final(self).wires@ == old(self).wires@,
    {
        if self.registers == 12 {
            return Err(SimError::OversizedGate);
        }
        self.registers = self.registers + 1;
        let n: usize = self.gates.len();
        let mut i: usize = 0;
        while i < n
            invariant
                n == self.gates@.len(),
                i <= n,
                self.registers == old(self).registers + 1,
                self.system == old(self).system,
                self.step == old(self).step,
                self.wires@ == old(self).wires@,
                self.current_drag == old(self).current_drag,
                self.dragging_wire == old(self).dragging_wire,
                forall|p: int|
                    0 <= p < i ==> (#[trigger] self.gates@[p])@ == old(self).gates@[p]@.push(
                        Gate::I,
                    ),
                forall|p: int| i <= p < n ==> (#[trigger] self.gates@[p])@ == old(self).gates@[p]@,
            decreases n - i,
        {
            let col: &mut Vec<Gate> = &mut self.gates[i];
            col.push(Gate::I);
            i = i + 1;
        }
        self.system.add_qubit(crate::qubit::Qubit::zero());
        Ok(())
    }

    /// Sets the angle of the parameterized gate at one grid cell;
    /// other gates are unchanged.
    pub fn edit_gate(&mut self, column: usize, register: usize, value: i64)
        requires
            cm_wf(&*old(self)),
            column < old(self).gates@.len(),
            register < old(self).registers,
            -THETA_LIM <= value <= THETA_LIM,
        ensures
            cm_wf(final(self)),
            final(self).gates@.len() == old(self).gates@.len(),
            forall|i: int|
                0 <= i < old(self).gates@.len() && i != column ==> (#[trigger] final(self).gates@[i])@ == old(self).gates@[i]@,
            forall|t: int|
                0 <= t < old(self).registers && t != register ==> final(self).gates@[column as int]@[t] == old(self).gates@[column as int]@[t],
            final(self).gates@[column as int]@[register as int] == (match old(self).gates@[column as int]@[register as int] {
                Gate::P(_) => Gate::P(value),
                Gate::RX(_) => Gate::RX(value),
                Gate::RY(_) => Gate::RY(value),
                Gate::RZ(_) => Gate::RZ(value),
                other => other,
            }),
            final(self).system == old(self).system,
            final(self).step == old(self).step,
            final(self).registers == old(self).registers,
            final(self).wires@ == old(self).wires@,
    {
        let new_gate: Option<Gate> = match &self.gates[column][register] {
            Gate::P(_) => Some(Gate::P(value)),
            Gate::RX(_) => Some(Gate::RX(value)),
            Gate::RY(_) => Some(Gate::RY(value)),
            Gate::RZ(_) => Some(Gate::RZ(value)),
            _ => None,
        };
        if let Some(g) = new_gate {
            self.gates[column].set(register, g);
        }
    }

    /// The angle of the parameterized gate at one cell, zero for the
    /// others.
    pub fn gate_value(&self, column: usize, register: usize) -> (r: i64)
        requires
            cm_wf(self),
            column < self.gates@.len(),
            register < self.registers,
        ensures
            r == (match self.gates@[column as int]@[register as int] {
                Gate::P(n) => n,
                Gate::RX(n) => n,
                Gate::RY(n) => n,
                Gate::RZ(n) => n,
                _ => 0i64,
            }),
    {
        match &self.gates[column][register] {
            Gate::P(n) => *n,
            Gate::RX(n) => *n,
            Gate::RY(n) => *n,
            Gate::RZ(n) => *n,
            _ => 0,
        }
    }

    /// A copy of the register's amplitude vector.
    pub fn get_values(&self) -> (r: Vec<ComplexNumber>)
        ensures
            r@ == self.system.values@,
    {
        self.system.get_values()
    }

    /// Records which gate a drag carries.
    pub fn set_dragging(&mut self, gate: Gate)
        requires
            cm_wf(&*old(self)),
            gate_ok(gate),
        ensures
            cm_wf(final(self)),
            final(self).current_drag == gate,
            final(self).gates@ == old(self).gates@,
            final(self).system == old(self).system,
            final(self).registers == old(self).registers,
            final(self).step == old(self).step,
            final(self).wires@ == old(self).wires@,
    {
        self.current_drag = gate;
    }

    /// Records whether a classical-wire drag is active, and from
    /// which cell it started.
    pub fn set_wire_drag(&mut self, dragging: bool, column: usize, register: usize)
        requires
            cm_wf(&*old(self)),
            register < old(self).registers,
        ensures
            cm_wf(final(self)),
            final(self).dragging_wire == (dragging, column, register),
            final(self).gates@ == old(self).gates@,
            final(self).system == old(self).system,
            final(self).registers == old(self).registers,
            final(self).step == old(self).step,
            final(self).wires@ == old(self).wires@,
    {
        self.dragging_wire = (dragging, column, register);
    }

    /// Appends an all-identity column.
    pub fn add_column(&mut self)
        requires
            cm_wf(&*old(self)),
        ensures
            cm_wf(final(self)),
            final(self).gates@.len() == old(self).gates@.len() + 1,
            forall|i: int|
                0 <= i < old(self).gates@.len() ==> (#[trigger] final(self).gates@[i])@ == old(self).gates@[i]@,
            final(self).gates@[old(self).gates@.len() as int]@.len() == old(self).registers,
            forall|t: int|
                0 <= t < old(self).registers ==> final(self).gates@[old(self).gates@.len() as int]@[t] is I,
            final(self).system == old(self).system,
            final(self).registers == old(self).registers,
            final(self).step == old(self).step,
            final(self).wires@ == old(self).wires@,
            final(self).current_drag == old(self).current_drag,
            final(self).dragging_wire == old(self).dragging_wire,
    {
        let n: usize = self.registers;
        let mut column: Vec<Gate> = Vec::new();
        let mut i: usize = 0;
        while i < n
            invariant
                i <= n,
                column@.len() == i,
                forall|t: int| 0 <= t < i ==> (#[trigger] column@[t]) is I,
            decreases n - i,
        {
            column.push(Gate::I);
            i = i + 1;
        }
        self.gates.push(column);
    }

    /// The user-defined subroutine hook for placeholder cells: an
    /// extension point that the core leaves inert.
    pub fn apply_function(&mut self, index: usize, name: &str)
        ensures
            *final(self) == *old(self),
    {
    }

    /// Handles a drop at one grid cell. An active wire drag records a
    /// classical wire instead of a gate. A gate that cannot fit below
    /// the drop point is rejected unchanged. Otherwise any placeholder
    /// run below the cell is restored to identities, the dragged gate
    /// is written with fresh placeholders for its extra tracks, and a
    /// new column is appended when the last one was used.
    pub fn handle_drop(&mut self, column: usize, register: usize) -> (r: Result<(), SimError>)
        requires
            cm_wf(&*old(self)),
            column < old(self).gates@.len(),
            register < old(self).registers,
        ensures
            cm_wf(final(self)),
            final(self).system == old(self).system,
            final(self).registers == old(self).registers,
            final(self).step == old(self).step,
            final(self).current_drag == old(self).current_drag,
            final(self).dragging_wire == old(self).dragging_wire,
            old(self).dragging_wire.0 ==> r is Ok && final(self).gates@ == old(self).gates@ && (
            if old(self).dragging_wire.1 == column && register != old(self).dragging_wire.2 {
                final(self).wires@ == old(self).wires@.push(
                    (column, old(self).dragging_wire.2, register),
                )
            } else {
                final(self).wires@ == old(self).wires@
            }),
            !old(self).dragging_wire.0 ==> final(self).wires@ == old(self).wires@,
            !old(self).dragging_wire.0 ==> (r is Err <==> crate::gates::gate_span(
                old(self).current_drag,
            ) > old(self).registers - register),
            r is Err ==> r == Err::<(), SimError>(SimError::OversizedGate) && final(self).gates@
                == old(self).gates@,
            !old(self).dragging_wire.0 && r is Ok ==> {
                let oldcol = old(self).gates@[column as int]@;
                let newcol = final(self).gates@[column as int]@;
                let span = crate::gates::gate_span(old(self).current_drag);
                let rend = restore_end(oldcol, register + 1);
                &&& gate_like(newcol[register as int], old(self).current_drag)
                &&& forall|t: int| register < t < register + span ==> (#[trigger] newcol[t]) is Other
                &&& forall|t: int|
                    register + span <= t < rend ==> (#[trigger] newcol[t]) is I
                &&& forall|t: int|
                    (0 <= t < register || rend <= t < old(self).registers) && t >= register + span
                        ==> (#[trigger] newcol[t]) == oldcol[t]
                &&& forall|t: int| 0 <= t < register ==> (#[trigger] newcol[t]) == oldcol[t]
                &&& forall|i: int|
                    0 <= i < old(self).gates@.len() && i != column ==> (#[trigger] final(self).gates@[i])@ == old(self).gates@[i]@
                &&& (column == old(self).gates@.len() - 1 ==> final(self).gates@.len() == old(self).gates@.len() + 1)
                &&& (column < old(self).gates@.len() - 1 ==> final(self).gates@.len() == old(self).gates@.len())
            },
    {
        if self.dragging_wire.0 {
            if self.dragging_wire.1 == column && register != self.dragging_wire.2 {
                let w: (usize, usize, usize) = (column, self.dragging_wire.2, register);
                self.wires.push(w);
            }
            return Ok(());
        }
        let span: usize = self.current_drag.span();
        if span > self.registers - register {
            return Err(SimError::OversizedGate);
        }
        let cols: usize = self.gates[column].len();
        let ghost oldcol = self.gates@[column as int]@;
        let mut i: usize = register + 1;
        let mut halted: bool = false;
        while i < cols && !halted
            invariant
                cm_wf(self),
                self.system == old(self).system,
                self.registers == old(self).registers,
                self.step == old(self).step,
                self.wires@ == old(self).wires@,
                self.current_drag == old(self).current_drag,
                self.dragging_wire == old(self).dragging_wire,
                self.gates@.len() == old(self).gates@.len(),
                column < self.gates@.len(),
                cols == self.registers,
                oldcol == old(self).gates@[column as int]@,
                oldcol.len() == cols,
                register < i <= cols,
                forall|c: int|
                    0 <= c < self.gates@.len() && c != column ==> (#[trigger] self.gates@[c])@
                        == old(self).gates@[c]@,
                forall|t: int|
                    0 <= t < cols && !(register < t < i) ==> self.gates@[column as int]@[t]
                        == oldcol[t],
                forall|t: int| register < t < i ==> (#[trigger] self.gates@[column as int]@[t]) is I,
                !halted ==> restore_end(oldcol, i as int) == restore_end(oldcol, register + 1),
                halted ==> i < cols && !(oldcol[i as int] is Other) && restore_end(
                    oldcol,
                    register + 1,
                ) == i,
                forall|t: int| register < t < i ==> (#[trigger] oldcol[t]) is Other,
            decreases cols - i + (if halted {
                0int
            } else {
                1int
            }),
        {
            if self.gates[column][i].is_placeholder() {
                self.gates[column].set(i, Gate::I);
                i = i + 1;
            } else {
                proof {
                    assert(restore_end(oldcol, i as int) == i);
                }
                halted = true;
            }
        }
        proof {
            if !halted {
                assert(restore_end(oldcol, i as int) == cols);
            }
        }
        let dropped: Gate = self.current_drag.duplicate();
        self.gates[column].set(register, dropped);
        let mut p: usize = 1;
        while p < span
            invariant
                cm_wf(self),
                self.system == old(self).system,
                self.registers == old(self).registers,
                self.step == old(self).step,
                self.wires@ == old(self).wires@,
                self.current_drag == old(self).current_drag,
                self.dragging_wire == old(self).dragging_wire,
                self.gates@.len() == old(self).gates@.len(),
                column < self.gates@.len(),
                cols == self.registers,
                span <= cols - register,
                1 <= p <= span,
                oldcol == old(self).gates@[column as int]@,
                oldcol.len() == cols,
                gate_like(
                    self.gates@[column as int]@[register as int],
                    old(self).current_drag,
                ),
                forall|c: int|
                    0 <= c < self.gates@.len() && c != column ==> (#[trigger] self.gates@[c])@
                        == old(self).gates@[c]@,
                forall|t: int| 0 <= t < register ==> self.gates@[column as int]@[t] == oldcol[t],
                forall|t: int|
                    register < t < register + p ==> (#[trigger] self.gates@[column as int]@[t]) is Other,
                forall|t: int|
                    register + p <= t < restore_end(oldcol, register + 1) && t < cols ==> (
                    #[trigger] self.gates@[column as int]@[t]) is I,
                forall|t: int|
                    restore_end(oldcol, register + 1) <= t < cols && t >= register + p
                        ==> self.gates@[column as int]@[t] == oldcol[t],
            decreases span - p,
        {
            self.gates[column].set(register + p, Gate::Other(String::from_str("none")));
            p = p + 1;
        }
        if column == self.gates.len() - 1 {
            self.add_column();
        }
        proof {
            lemma_restore_end_range(oldcol, register + 1);
        }
        Ok(())
    }

    /// Resets everything: two `|0>` tracks, one identity column, no
    /// wires.
    pub fn clear_system(&mut self)
        ensures
            cm_wf(final(self)),
            final(self).registers == 2,
            final(self).step == 0,
            final(self).wires@.len() == 0,
            final(self).gates@.len() == 1,
            forall|t: int| 0 <= t < 2 ==> final(self).gates@[0]@[t] is I,
            final(self).system.values@ == basis_state(4, 0),
            final(self).current_drag is I,
            final(self).dragging_wire == (false, 0usize, 0usize),
    {
        self.step = 0;
        self.system = crate::qubit::zero_register(2);
        self.registers = 2;
        let mut column: Vec<Gate> = Vec::new();
        column.push(Gate::I);
        column.push(Gate::I);
        let mut gates: Vec<Vec<Gate>> = Vec::new();
        gates.push(column);
        self.gates = gates;
        self.wires = Vec::new();
        self.dragging_wire = (false, 0, 0);
        self.current_drag = Gate::I;
        proof {
            reveal_with_fuel(reg_size, 3);
        }
    }

    /// Restarts the simulation: the register returns to `|0...0>` and
    /// the step counter to zero; the grid and wires are kept.
    pub fn restart(&mut self)
        requires
            cm_wf(&*old(self)),
        ensures
            cm_wf(final(self)),
            final(self).step == 0,
            final(self).gates@ == old(self).gates@,
            final(self).wires@ == old(self).wires@,
            final(self).registers == old(self).registers,
            final(self).system.values@ == basis_state(
                reg_size(old(self).registers as nat),
                0,
            ),
    {
        self.system = crate::qubit::zero_register(self.registers);
        self.step = 0;
    }
}

/// `restore_end` stays between its start and the column's length.
pub proof fn lemma_restore_end_range(col: Seq<Gate>, from: int)
    requires
        0 <= from,
    ensures
        from <= restore_end(col, from) <= col.len() || (from > col.len() && restore_end(col, from)
            == col.len()),
    decreases col.len() - from,
{
    if 0 <= from < col.len() && col[from] is Other {
        lemma_restore_end_range(col, from + 1);
    }
}

impl CircuitManager {
    /// Loads a prebuilt example: its grid, its wires, and a fresh
    /// `|0...0>` register of matching width.
    pub fn set_example(&mut self, gates: Vec<Vec<Gate>>, wires: Vec<(usize, usize, usize)>)
        requires
            cm_wf(&*old(self)),
            gates@.len() >= 1,
            1 <= gates@[0]@.len() <= 12,
            forall|i: int|
                0 <= i < gates@.len() ==> (#[trigger] gates@[i])@.len() == gates@[0]@.len(),
            forall|i: int| 0 <= i < gates@.len() ==> column_gates_ok((#[trigger] gates@[i])@),
            forall|w: int|
                0 <= w < wires@.len() ==> (#[trigger] wires@[w]).1 < gates@[0]@.len()
                    && wires@[w].2 < gates@[0]@.len(),
        ensures
            cm_wf(final(self)),
            final(self).registers == gates@[0]@.len(),
            final(self).gates@ == gates@,
            final(self).wires@ == wires@,
            final(self).step == 0,
            final(self).system.values@ == basis_state(
                reg_size(gates@[0]@.len() as nat),
                0,
            ),
    {
        let len: usize = gates[0].len();
        self.registers = len;
        self.system = crate::qubit::zero_register(len);
        self.step = 0;
        self.gates = gates;
        self.wires = wires;
        if self.dragging_wire.2 >= len {
            self.dragging_wire = (false, 0, 0);
        }
    }

    /// Advances the simulation by one column, if one is left. Each
    /// classical wire into this column measures its source track and
    /// downgrades its target cell to the identity on outcome zero;
    /// then the column's measurement markers fire and its composite
    /// operator is applied. Reports the amplitudes, the Bloch
    /// coordinates of every track, and all measurement outcomes.
    pub fn step(&mut self) -> (r: Result<StepReport, SimError>)
        requires
            cm_wf(&*old(self)),
        ensures
            cm_wf(final(self)),
            final(self).gates@ == old(self).gates@,
            final(self).wires@ == old(self).wires@,
            final(self).registers == old(self).registers,
            old(self).step == old(self).gates@.len() ==> r is Ok && final(self).step == old(
                self,
            ).step && final(self).system == old(self).system,
            r is Ok && old(self).step < old(self).gates@.len() ==> final(self).step == old(
                self,
            ).step + 1,
            r is Err ==> final(self).step == old(self).step,
            r is Err ==> r == Err::<StepReport, SimError>(SimError::NonNormalState) || r == Err::<
                StepReport,
                SimError,
            >(SimError::DimensionMismatch),
            r is Ok ==> (r->Ok_0).amplitudes@ == final(self).system.values@ && bloch_list_ok(
                (r->Ok_0).bloch@,
                final(self).system.values@,
                old(self).registers as int,
            ),
            r is Ok && old(self).step < old(self).gates@.len() ==> forall|k: int|
                0 <= k < (r->Ok_0).measured@.len() ==> {
                    &&& (#[trigger] (r->Ok_0).measured@[k]).0 < old(self).registers
                    &&& ((r->Ok_0).measured@[k].1 == 0 || (r->Ok_0).measured@[k].1 == 1)
                    &&& (wire_from(
                        old(self).wires@,
                        old(self).step as int,
                        (r->Ok_0).measured@[k].0 as int,
                    ) || old(self).gates@[old(self).step as int]@[(r->Ok_0).measured@[k].0 as int] is M)
                },
            r is Ok && old(self).step == old(self).gates@.len() ==> (r->Ok_0).measured@.len() == 0,
            old(self).step < old(self).gates@.len() && (forall|w: int|
                0 <= w < old(self).wires@.len() ==> (#[trigger] old(self).wires@[w]).0 != old(
                    self,
                ).step) && crate::qubit::column_fixed(old(self).gates@[old(self).step as int]@)
                ==> (r is Ok <==> crate::qubit::col_size(
                old(self).gates@[old(self).step as int]@,
                old(self).registers as int,
            ) == reg_size(old(self).registers as nat) && exists|mm: Seq<Seq<ComplexNumber>>|
                column_ok(old(self).gates@[old(self).step as int]@, old(self).registers as int, mm)
                    && crate::matrix::vec_amp(
                    #[trigger] dot_view(mm, old(self).system.values@),
                )),
            old(self).step < old(self).gates@.len() && (forall|w: int|
                0 <= w < old(self).wires@.len() ==> (#[trigger] old(self).wires@[w]).0 != old(
                    self,
                ).step) && crate::qubit::column_fixed(old(self).gates@[old(self).step as int]@)
                && r is Ok ==> forall|mm: Seq<Seq<ComplexNumber>>|
                #[trigger] column_ok(
                    old(self).gates@[old(self).step as int]@,
                    old(self).registers as int,
                    mm,
                ) ==> final(self).system.values@ == dot_view(mm, old(self).system.values@),
            r is Ok && old(self).step < old(self).gates@.len() && (forall|w: int|
                0 <= w < old(self).wires@.len() ==> (#[trigger] old(self).wires@[w]).0 != old(
                    self,
                ).step) ==> exists|vm: Seq<ComplexNumber>, m: Seq<Seq<ComplexNumber>>|
                #[trigger] meas_chain(
                    old(self).gates@[old(self).step as int]@,
                    old(self).registers as int,
                    old(self).registers as int,
                    old(self).system.values@,
                    vm,
                ) && column_ok(old(self).gates@[old(self).step as int]@, old(self).registers as int, m)
                    && final(self).system.values@ == #[trigger] dot_view(m, vm),
            r is Ok && old(self).step < old(self).gates@.len() ==> exists|
                vmid: Seq<ComplexNumber>,
                k: nat,
                wcol: Seq<Gate>,
                wbits: Seq<int>,
                vm: Seq<ComplexNumber>,
                m: Seq<Seq<ComplexNumber>>,
            |
                {
                    &&& #[trigger] meas_star(
                        old(self).registers as int,
                        old(self).system.values@,
                        vmid,
                        k,
                    )
                    &&& #[trigger] wire_bits_ok(old(self).wires@, old(self).step as int, wbits)
                    &&& wcol.len() == old(self).registers
                    &&& (forall|t: int|
                        0 <= t < wcol.len() ==> #[trigger] wcol[t] == old(self).gates@[old(
                            self,
                        ).step as int]@[t] || (wcol[t] is I && wire_into(
                            old(self).wires@,
                            old(self).step as int,
                            t,
                        )))
                    &&& (forall|t: int|
                        0 <= t < wcol.len() && (forall|w: int|
                            0 <= w < old(self).wires@.len() && (#[trigger] old(self).wires@[w]).0
                                == old(self).step && old(self).wires@[w].2 == t ==> wbits[w] == 1)
                            ==> #[trigger] wcol[t] == old(self).gates@[old(self).step as int]@[t])
                    &&& (forall|t: int|
                        0 <= t < wcol.len() && (exists|w: int|
                            0 <= w < old(self).wires@.len() && (#[trigger] old(self).wires@[w]).0
                                == old(self).step && old(self).wires@[w].2 == t && wbits[w] == 0)
                            ==> (#[trigger] wcol[t]) is I)
                    &&& (forall|w: int|
                        0 <= w < old(self).wires@.len() && (#[trigger] old(self).wires@[w]).0
                            == old(self).step ==> exists|kk: int|
                            0 <= kk < (r->Ok_0).measured@.len() && (#[trigger] (
                            r->Ok_0).measured@[kk]).0 == old(self).wires@[w].1 && (
                            r->Ok_0).measured@[kk].1 == wbits[w])
                    &&& #[trigger] meas_chain(
                        wcol,
                        wcol.len() as int,
                        old(self).registers as int,
                        vmid,
                        vm,
                    )
                    &&& column_ok(wcol, wcol.len() as int, m)
                    &&& final(self).system.values@ == #[trigger] dot_view(m, vm)
                },
    {
        if self.step == self.gates.len() {
            let report = StepReport {
                amplitudes: self.system.get_values(),
                bloch: self.bloch_coordinates(),
                measured: Vec::new(),
            };
            return Ok(report);
        }
        let ghost v0 = self.system.values@;
        let col_idx: usize = self.step;
        let regs: usize = self.registers;
        let mut measured: Vec<(usize, usize)> = Vec::new();

        let mut working: Vec<Gate> = Vec::new();
        let mut t: usize = 0;
        while t < regs
            invariant
                cm_wf(self),
                *self == *old(self),
                col_idx == old(self).step,
                col_idx < self.gates@.len(),
                regs == self.registers,
                t <= regs,
                working@.len() == t,
                forall|p: int|
                    0 <= p < t ==> #[trigger] working@[p] == self.gates@[col_idx as int]@[p],
            decreases regs - t,
        {
            proof {
                assert(column_gates_ok(self.gates@[col_idx as int]@));
                assert(gate_ok(self.gates@[col_idx as int]@[t as int]));
            }
            let g: Gate = self.gates[col_idx][t].duplicate();
            working.push(g);
            t = t + 1;
        }

        proof {
            assert(working@ =~= self.gates@[col_idx as int]@);
        }
        let ghost col0 = self.gates@[col_idx as int]@;
        let nwires: usize = self.wires.len();
        let ghost mut steps: nat = 0nat;
        let ghost mut wbits: Seq<int> = Seq::new(nwires as nat, |w: int| 1int);
        let mut i: usize = 0;
        while i < regs
            invariant
                sys_wf(&self.system),
                self.system.len == old(self).system.len,
                self.gates@ == old(self).gates@,
                self.wires@ == old(self).wires@,
                self.registers == old(self).registers,
                self.step == old(self).step,
                self.current_drag == old(self).current_drag,
                self.dragging_wire == old(self).dragging_wire,
                cm_wf(self),
                col_idx == old(self).step,
                col_idx < self.gates@.len(),
                regs == self.registers,
                nwires == self.wires@.len(),
                v0 == old(self).system.values@,
                col0 == self.gates@[col_idx as int]@,
                i <= regs,
                working@.len() == regs,
                forall|p: int|
                    0 <= p < regs ==> ((#[trigger] working@[p])
                        == self.gates@[col_idx as int]@[p] || (working@[p] is I && wire_into(
                        self.wires@,
                        col_idx as int,
                        p,
                    ))) && gate_ok(working@[p]),
                forall|p: int|
                    0 <= p < regs ==> ((#[trigger] working@[p]) is M
                        ==> self.gates@[col_idx as int]@[p] is M),
                (forall|w: int|
                    0 <= w < self.wires@.len() ==> (#[trigger] self.wires@[w]).0 != col_idx)
                    ==> self.system.values@ == v0 && working@ == col0,
                meas_star(regs as int, v0, self.system.values@, steps),
                wbits.len() == nwires,
                forall|w2: int| 0 <= w2 < nwires ==> 0 <= #[trigger] wbits[w2] <= 1,
                forall|w2: int|
                    0 <= w2 < nwires && (#[trigger] self.wires@[w2]).0 != col_idx ==> wbits[w2]
                        == 1,
                forall|w2: int|
                    0 <= w2 < nwires && (#[trigger] self.wires@[w2]).0 == col_idx
                        && self.wires@[w2].2 >= i ==> wbits[w2] == 1,
                forall|t: int|
                    0 <= t < regs && (forall|w2: int|
                        0 <= w2 < nwires && (#[trigger] self.wires@[w2]).0 == col_idx
                            && self.wires@[w2].2 == t ==> wbits[w2] == 1)
                        ==> #[trigger] working@[t] == col0[t],
                forall|t: int|
                    0 <= t < regs && (exists|w2: int|
                        0 <= w2 < nwires && (#[trigger] self.wires@[w2]).0 == col_idx
                            && self.wires@[w2].2 == t && wbits[w2] == 0) ==> (
                    #[trigger] working@[t]) is I,
                forall|w2: int|
                    0 <= w2 < nwires && (#[trigger] self.wires@[w2]).0 == col_idx
                        && self.wires@[w2].2 < i ==> exists|kk: int|
                        0 <= kk < measured@.len() && (#[trigger] measured@[kk]).0
                            == self.wires@[w2].1 && measured@[kk].1 == wbits[w2],
                forall|k: int|
                    0 <= k < measured@.len() ==> (#[trigger] measured@[k]).0 < regs && (
                    measured@[k].1 == 0 || measured@[k].1 == 1) && wire_from(
                        self.wires@,
                        col_idx as int,
                        measured@[k].0 as int,
                    ),
            decreases regs - i,
        {
            let mut w: usize = 0;
            while w < nwires
                invariant
                    sys_wf(&self.system),
                    self.system.len == old(self).system.len,
                    self.gates@ == old(self).gates@,
                    self.wires@ == old(self).wires@,
                    self.registers == old(self).registers,
                    self.step == old(self).step,
                    self.current_drag == old(self).current_drag,
                    self.dragging_wire == old(self).dragging_wire,
                    cm_wf(self),
                    col_idx == old(self).step,
                    col_idx < self.gates@.len(),
                    regs == self.registers,
                    nwires == self.wires@.len(),
                    v0 == old(self).system.values@,
                    col0 == self.gates@[col_idx as int]@,
                    i < regs,
                    w <= nwires,
                    working@.len() == regs,
                    forall|p: int|
                        0 <= p < regs ==> ((#[trigger] working@[p])
                            == self.gates@[col_idx as int]@[p] || (working@[p] is I && wire_into(
                            self.wires@,
                            col_idx as int,
                            p,
                        ))) && gate_ok(working@[p]),
                    forall|p: int|
                        0 <= p < regs ==> ((#[trigger] working@[p]) is M
                            ==> self.gates@[col_idx as int]@[p] is M),
                    (forall|w2: int|
                        0 <= w2 < self.wires@.len() ==> (#[trigger] self.wires@[w2]).0 != col_idx)
                        ==> self.system.values@ == v0 && working@ == col0,
                    meas_star(regs as int, v0, self.system.values@, steps),
                    wbits.len() == nwires,
                    forall|w2: int| 0 <= w2 < nwires ==> 0 <= #[trigger] wbits[w2] <= 1,
                    forall|w2: int|
                        0 <= w2 < nwires && (#[trigger] self.wires@[w2]).0 != col_idx
                            ==> wbits[w2] == 1,
                    forall|w2: int|
                        0 <= w2 < nwires && (#[trigger] self.wires@[w2]).0 == col_idx && (
                        self.wires@[w2].2 > i || (self.wires@[w2].2 == i && w2 >= w))
                            ==> wbits[w2] == 1,
                    forall|t: int|
                        0 <= t < regs && t != i && (forall|w2: int|
                            0 <= w2 < nwires && (#[trigger] self.wires@[w2]).0 == col_idx
                                && self.wires@[w2].2 == t ==> wbits[w2] == 1)
                            ==> #[trigger] working@[t] == col0[t],
                    (forall|w2: int|
                        0 <= w2 < nwires && (#[trigger] self.wires@[w2]).0 == col_idx
                            && self.wires@[w2].2 == i ==> wbits[w2] == 1) ==> working@[i as int]
                        == col0[i as int],
                    forall|t: int|
                        0 <= t < regs && (exists|w2: int|
                            0 <= w2 < nwires && (#[trigger] self.wires@[w2]).0 == col_idx
                                && self.wires@[w2].2 == t && wbits[w2] == 0) ==> (
                        #[trigger] working@[t]) is I,
                    forall|w2: int|
                        0 <= w2 < nwires && (#[trigger] self.wires@[w2]).0 == col_idx && (
                        self.wires@[w2].2 < i || (self.wires@[w2].2 == i && w2 < w))
                            ==> exists|kk: int|
                            0 <= kk < measured@.len() && (#[trigger] measured@[kk]).0
                                == self.wires@[w2].1 && measured@[kk].1 == wbits[w2],
                    forall|k: int|
                        0 <= k < measured@.len() ==> (#[trigger] measured@[k]).0 < regs && (
                        measured@[k].1 == 0 || measured@[k].1 == 1) && wire_from(
                            self.wires@,
                            col_idx as int,
                            measured@[k].0 as int,
                        ),
                decreases nwires - w,
            {
                let wire: (usize, usize, usize) = self.wires[w];
                if wire.0 == col_idx && wire.2 == i {
                    let ghost vprev = self.system.values@;
                    let b: usize = match self.system.measure_single(wire.1) {
                        Ok(b) => b,
                        Err(e) => {
                            return Err(e);
                        },
                    };
                    proof {
                        let u = choose|u: int|
                            0 <= u < SCALE && #[trigger] crate::qubit::ms_post(
                                vprev,
                                self.system.values@,
                                reg_size((self.system.len - wire.1) as nat) as int,
                                reg_size((self.system.len - wire.1) as nat) as int / 2,
                                u,
                                b as int,
                            );
                        assert(meas_star(
                            regs as int,
                            v0,
                            self.system.values@,
                            (steps + 1) as nat,
                        ));
                        steps = (steps + 1) as nat;
                    }
                    let ghost m0 = measured@;
                    let ghost b0 = wbits;
                    measured.push((wire.1, b));
                    proof {
                        wbits = wbits.update(w as int, b as int);
                        assert(self.wires@[w as int].0 == col_idx && self.wires@[w as int].1
                            == wire.1);
                        assert(wire_from(self.wires@, col_idx as int, wire.1 as int));
                        assert(measured@[m0.len() as int].0 == self.wires@[w as int].1
                            && measured@[m0.len() as int].1 == wbits[w as int]);
                        assert forall|w2: int|
                            0 <= w2 < nwires && (#[trigger] self.wires@[w2]).0 == col_idx && (
                            self.wires@[w2].2 < i || (self.wires@[w2].2 == i && w2 < w + 1))
                                implies exists|kk: int|
                                0 <= kk < measured@.len() && (#[trigger] measured@[kk]).0
                                    == self.wires@[w2].1 && measured@[kk].1 == wbits[w2] by {
                            if w2 == w {
                                assert(measured@[m0.len() as int].0 == self.wires@[w2].1
                                    && measured@[m0.len() as int].1 == wbits[w2]);
                            } else {
                                let kk0 = choose|kk0: int|
                                    0 <= kk0 < m0.len() && (#[trigger] m0[kk0]).0
                                        == self.wires@[w2].1 && m0[kk0].1 == b0[w2];
                                assert(measured@[kk0] == m0[kk0]);
                                assert(wbits[w2] == b0[w2]);
                            }
                        }
                    }
                    if b != 1 {
                        working.set(i, Gate::I);
                        proof {
                            assert(self.wires@[w as int].0 == col_idx && self.wires@[w as int].2
                                == i);
                            assert(wire_into(self.wires@, col_idx as int, i as int));
                        }
                    }
                }
                w = w + 1;
            }
            i = i + 1;
        }

        let ghost vmid = self.system.values@;
        let ghost wcol = working@;
        proof {
            if forall|w: int|
                0 <= w < self.wires@.len() ==> (#[trigger] self.wires@[w]).0 != col_idx {
                assert(wcol == col0 && vmid == v0);
            }
        }
        let outcomes: Vec<(usize, usize)> = match self.system.apply_gates(working) {
            Ok(o) => o,
            Err(e) => {
                return Err(e);
            },
        };
        let mut all_measured: Vec<(usize, usize)> = measured;
        proof {
            assert forall|k: int|
                0 <= k < outcomes@.len() implies (#[trigger] outcomes@[k]).0 < regs && (
            outcomes@[k].1 == 0 || outcomes@[k].1 == 1) && self.gates@[col_idx as int]@[outcomes@[k].0 as int] is M by {
                assert(wcol[outcomes@[k].0 as int] is M);
            }
        }
        let mut oi: usize = 0;
        let no: usize = outcomes.len();
        while oi < no
            invariant
                self.gates@ == old(self).gates@,
                self.wires@ == old(self).wires@,
                col_idx == old(self).step,
                col_idx < self.gates@.len(),
                oi <= no,
                no == outcomes@.len(),
                all_measured@.len() == measured@.len() + oi,
                forall|k: int|
                    0 <= k < measured@.len() ==> all_measured@[k] == measured@[k],
                forall|k: int|
                    measured@.len() <= k < all_measured@.len() ==> all_measured@[k] == outcomes@[k
                        - measured@.len()],
                forall|k: int|
                    0 <= k < measured@.len() ==> (#[trigger] measured@[k]).0 < regs && (
                    measured@[k].1 == 0 || measured@[k].1 == 1) && wire_from(
                        self.wires@,
                        col_idx as int,
                        measured@[k].0 as int,
                    ),
                forall|k: int|
                    0 <= k < outcomes@.len() ==> (#[trigger] outcomes@[k]).0 < regs && (
                    outcomes@[k].1 == 0 || outcomes@[k].1 == 1) && self.gates@[col_idx as int]@[outcomes@[k].0 as int] is M,
            decreases no - oi,
        {
            let o: (usize, usize) = outcomes[oi];
            all_measured.push(o);
            oi = oi + 1;
        }
        proof {
            assert(wire_bits_ok(self.wires@, col_idx as int, wbits));
            assert forall|w2: int|
                0 <= w2 < nwires && (#[trigger] self.wires@[w2]).0 == col_idx
                    implies exists|kk: int|
                    0 <= kk < all_measured@.len() && (#[trigger] all_measured@[kk]).0
                        == self.wires@[w2].1 && all_measured@[kk].1 == wbits[w2] by {
                assert(self.wires@[w2].2 < regs);
                let kk0 = choose|kk0: int|
                    0 <= kk0 < measured@.len() && (#[trigger] measured@[kk0]).0
                        == self.wires@[w2].1 && measured@[kk0].1 == wbits[w2];
                assert(all_measured@[kk0] == measured@[kk0]);
            }
            let (vm2, m2) = choose|vm2: Seq<ComplexNumber>, m2: Seq<Seq<ComplexNumber>>|
                #[trigger] meas_chain(
                    wcol,
                    wcol.len() as int,
                    old(self).registers as int,
                    vmid,
                    vm2,
                ) && column_ok(wcol, wcol.len() as int, m2) && self.system.values@
                    == #[trigger] dot_view(m2, vm2);
            assert(meas_star(old(self).registers as int, old(self).system.values@, vmid, steps));
            assert(wcol.len() == old(self).registers);
        }
        self.step = self.step + 1;
        let report = StepReport {
            amplitudes: self.system.get_values(),
            bloch: self.bloch_coordinates(),
            measured: all_measured,
        };
        Ok(report)
    }

    /// The Bloch coordinates of every track, in track order, from the
    /// density matrix reduced track by track: for track `q` every
    /// other position is traced out, counting positions as the
    /// register's Kronecker ordering stores them. A track whose
    /// reduction fails reports the origin.
    pub fn bloch_coordinates(&self) -> (r: Vec<(i64, i64, i64)>)
        requires
            cm_wf(self),
        ensures
            bloch_list_ok(r@, self.system.values@, self.registers as int),
    {
        let rho: Matrix = self.system.density_matrix();
        let ghost dm = crate::qubit::density_view(self.system.values@);
        let regs: usize = self.registers;
        let mut out: Vec<(i64, i64, i64)> = Vec::new();
        let mut q: usize = 0;
        proof {
            crate::qubit::lemma_reg_size_bounds(self.registers as nat);
            assert forall|a: int| 0 <= a < rho.rows implies mat_view(&rho)[a] =~= dm[a] by {
                assert(mat_view(&rho)[a] == rho.value@[a]@);
                assert forall|b: int| 0 <= b < rho.cols implies rho.value@[a]@[b] == dm[a][b] by {
                    assert(crate::matrix::ent(&rho, a, b) == crate::complex::c_mul(
                        crate::complex::c_conj(self.system.values@[a]),
                        self.system.values@[b],
                    ));
                }
            }
            assert(mat_view(&rho) =~= dm);
        }
        while q < regs
            invariant
                cm_wf(self),
                regs == self.registers,
                mat_wf(&rho),
                rho.rows == reg_size(self.registers as nat),
                rho.cols == reg_size(self.registers as nat),
                dm == crate::qubit::density_view(self.system.values@),
                mat_view(&rho) == dm,
                dm.len() == reg_size(regs as nat),
                q <= regs,
                out@.len() == q,
                forall|p: int| 0 <= p < q ==> #[trigger] bloch_entry_ok(out@[p], dm, regs as int, p),
            decreases regs - q,
        {
            let keep: usize = regs - 1 - q;
            let mut d: Matrix = rho.duplicate();
            let mut size: usize = regs;
            let mut removed: usize = 0;
            let mut i: usize = 0;
            let mut failed: bool = false;
            while i < regs
                invariant
                    cm_wf(self),
                    regs == self.registers,
                    q < regs,
                    keep == regs - 1 - q,
                    dm.len() == reg_size(regs as nat),
                    i <= regs,
                    removed == (if i <= keep {
                        i as int
                    } else {
                        i - 1
                    }),
                    size == regs - removed,
                    1 <= size <= 12,
                    !failed ==> mat_wf(&d) && d.rows == reg_size(size as nat) && d.cols
                        == reg_size(size as nat),
                    !failed ==> crate::qubit::bloch_chain(
                        mat_view(&d),
                        keep as int,
                        i as int,
                        regs as int,
                    ) == crate::qubit::bloch_chain(dm, keep as int, 0, regs as int),
                    !failed ==> (crate::qubit::bloch_chain_ok(
                        mat_view(&d),
                        keep as int,
                        i as int,
                        regs as int,
                    ) <==> crate::qubit::bloch_chain_ok(dm, keep as int, 0, regs as int)),
                    failed ==> !crate::qubit::bloch_chain_ok(dm, keep as int, 0, regs as int),
                decreases regs - i,
            {
                if i != keep {
                    proof {
                        assert(size >= 2);
                    }
                    if !failed {
                        let target: usize = i - removed;
                        proof {
                            assert(target == crate::qubit::reduce_step_target(
                                i as int,
                                keep as int,
                            ));
                            assert(target < 2 <= size);
                        }
                        let ghost dview = mat_view(&d);
                        let ghost dsnap = d;
                        let ghost half = reg_size((size - 1) as nat) as int;
                        proof {
                            crate::qubit::lemma_reg_size_bounds(size as nat);
                            crate::qubit::lemma_reg_size_bounds((size - 1) as nat);
                            crate::qubit::lemma_reg_size_divides(
                                target as nat,
                                (size - 1) as nat,
                            );
                            crate::qubit::lemma_reg_size_monotone(target as nat, (size - 1) as nat);
                            assert forall|ri: int, rj: int|
                                0 <= ri < half && 0 <= rj < half implies #[trigger] crate::qubit::pt_entry(
                                &dsnap,
                                target as nat,
                                ri,
                                rj,
                            ) == crate::qubit::pt_entry_view(dview, target as nat, ri, rj) by {
                                crate::qubit::lemma_insert_bit_range(
                                    ri,
                                    target as nat,
                                    0,
                                    half,
                                    reg_size(target as nat) as int,
                                );
                                crate::qubit::lemma_insert_bit_range(
                                    ri,
                                    target as nat,
                                    1,
                                    half,
                                    reg_size(target as nat) as int,
                                );
                                crate::qubit::lemma_insert_bit_range(
                                    rj,
                                    target as nat,
                                    0,
                                    half,
                                    reg_size(target as nat) as int,
                                );
                                crate::qubit::lemma_insert_bit_range(
                                    rj,
                                    target as nat,
                                    1,
                                    half,
                                    reg_size(target as nat) as int,
                                );
                                assert(dview[crate::qubit::insert_bit(ri, target as nat, 0)]
                                    == dsnap.value@[crate::qubit::insert_bit(ri, target as nat, 0)]@);
                                assert(dview[crate::qubit::insert_bit(ri, target as nat, 1)]
                                    == dsnap.value@[crate::qubit::insert_bit(ri, target as nat, 1)]@);
                            }
                        }
                        match crate::qubit::partial_trace(d, target, size) {
                            Ok(nd) => {
                                proof {
                                    assert forall|ri: int|
                                        0 <= ri < half implies mat_view(&nd)[ri]
                                        =~= crate::qubit::pt_view(dview, target as nat)[ri] by {
                                        assert(mat_view(&nd)[ri] == nd.value@[ri]@);
                                        assert forall|rj: int|
                                            0 <= rj < half implies nd.value@[ri]@[rj]
                                            == crate::qubit::pt_entry_view(
                                            dview,
                                            target as nat,
                                            ri,
                                            rj,
                                        ) by {
                                            assert(crate::matrix::ent(&nd, ri, rj)
                                                == crate::qubit::pt_entry(
                                                &dsnap,
                                                target as nat,
                                                ri,
                                                rj,
                                            ));
                                        }
                                    }
                                    assert(mat_view(&nd) =~= crate::qubit::pt_view(
                                        dview,
                                        target as nat,
                                    ));
                                    assert(crate::qubit::pt_step_ok(dview, target as nat)) by {
                                        assert forall|ri: int, rj: int|
                                            0 <= ri < dview.len() / 2 && 0 <= rj < dview.len() / 2
                                            implies crate::complex::c_norm2(
                                            #[trigger] crate::qubit::pt_entry_view(
                                                dview,
                                                target as nat,
                                                ri,
                                                rj,
                                            ),
                                        ) <= crate::matrix::ENTRY_LIM_SQ by {
                                            assert(dview.len() / 2 == half);
                                            assert(crate::qubit::pt_entry_view(
                                                dview,
                                                target as nat,
                                                ri,
                                                rj,
                                            ) == crate::matrix::ent(&nd, ri, rj));
                                            assert(crate::complex::c_norm2(
                                                crate::matrix::ent(&nd, ri, rj),
                                            ) <= crate::matrix::ENTRY_LIM_SQ);
                                        }
                                    }
                                }
                                d = nd;
                            },
                            Err(_) => {
                                proof {
                                    assert(!crate::qubit::pt_step_ok(dview, target as nat)) by {
                                        if crate::qubit::pt_step_ok(dview, target as nat) {
                                            assert forall|ri: int, rj: int|
                                                0 <= ri < half && 0 <= rj < half
                                                implies crate::complex::c_norm2(
                                                #[trigger] crate::qubit::pt_entry(
                                                    &dsnap,
                                                    target as nat,
                                                    ri,
                                                    rj,
                                                ),
                                            ) <= crate::matrix::ENTRY_LIM_SQ by {
                                                assert(crate::qubit::pt_entry(
                                                    &dsnap,
                                                    target as nat,
                                                    ri,
                                                    rj,
                                                ) == crate::qubit::pt_entry_view(
                                                    dview,
                                                    target as nat,
                                                    ri,
                                                    rj,
                                                ));
                                                assert(crate::complex::c_norm2(
                                                    crate::qubit::pt_entry_view(
                                                        dview,
                                                        target as nat,
                                                        ri,
                                                        rj,
                                                    ),
                                                ) <= crate::matrix::ENTRY_LIM_SQ);
                                            }
                                            assert(false);
                                        }
                                    }
                                }
                                failed = true;
                                d = Matrix::identity2();
                            },
                        }
                    }
                    size = size - 1;
                    removed = removed + 1;
                }
                i = i + 1;
            }
            if failed || size != 1 {
                proof {
                    assert(failed);
                }
                out.push((0, 0, 0));
                proof {
                    assert(bloch_entry_ok(out@[q as int], dm, regs as int, q as int));
                }
            } else {
                proof {
                    reveal_with_fuel(reg_size, 2);
                }
                let b: Vec<i64> = bloch_vector(d);
                proof {
                    let red = crate::qubit::bloch_chain(dm, keep as int, 0, regs as int);
                    assert(red == mat_view(&d));
                    assert(mat_view(&d)[0] == d.value@[0]@ && mat_view(&d)[1] == d.value@[1]@);
                }
                out.push((b[0], b[1], b[2]));
                proof {
                    assert(bloch_entry_ok(out@[q as int], dm, regs as int, q as int));
                }
            }
            q = q + 1;
        }
        out
    }
}

} // verus!
