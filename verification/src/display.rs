use vstd::prelude::*;

use crate::complex::{ComplexNumber, EPS, SCALE};
use crate::gates::Gate;
use crate::qubit::{bit_of, reg_size};

verus! {

/// The base-two logarithm of the small powers of two the grid uses.
pub fn log2(n: usize) -> (r: usize)
    requires
        n == 1 || n == 2 || n == 4 || n == 8 || n == 16 || n == 32,
    ensures
        reg_size(r as nat) == n,
        r <= 5,
{
    proof {
        reveal_with_fuel(reg_size, 6);
    }
    if n == 1 {
        0
    } else if n == 2 {
        1
    } else if n == 4 {
        2
    } else if n == 8 {
        3
    } else if n == 16 {
        4
    } else {
        5
    }
}

/// A short description of each gate, for tooltips.
pub fn gate_info(gate: &Gate) -> (r: &'static str) {
    match gate {
        Gate::I => "",
        Gate::X => "Flips on the X axis",
        Gate::Y => "Flips on the Y axis",
        Gate::Z => "Flips on the Z axis",
        Gate::H => "Puts a qubit into a superposition",
        Gate::M => "Measures a qubit",
        Gate::P(_) => "Alters the phase of a qubit",
        Gate::S => "Phase shift of pi/2",
        Gate::RX(_) => "Rotates the X axis",
        Gate::RY(_) => "Rotates the Y axis",
        Gate::RZ(_) => "Rotates the Z axis",
        Gate::CNOT => "Performs an X gate depending on another qubit",
        Gate::CZ => "Performs a Z gate depending on another qubit",
        Gate::SWAP => "Swaps two qubits",
        Gate::CCX => "Performs an X gate depending on two qubits",
        Gate::CCCX => "Performs an X gate depending on three qubits",
        Gate::CSWAP => "Performs a swap depending on a qubit",
        Gate::Other(_) => "Nothing",
    }
}

/// The bits of a basis-state index, most significant track first.
pub open spec fn idx_bits(idx: int, registers: nat) -> Seq<char> {
    Seq::new(
        registers,
        |i: int|
            if bit_of(idx, (registers - 1 - i) as nat) == 1 {
                '1'
            } else {
                '0'
            },
    )
}

/// The binary label of a basis state, one character per track, most
/// significant first.
pub fn idx_to_qubit(idx: usize, registers: usize) -> (r: String)
    requires
        registers <= 12,
    ensures
        r@ == idx_bits(idx as int, registers as nat),
{
    let mut r: String = String::new();
    let mut i: usize = 0;
    proof {
        reveal_strlit("0");
        reveal_strlit("1");
    }
    while i < registers
        invariant
            registers <= 12,
            i <= registers,
            r@ == idx_bits(idx as int, registers as nat).subrange(0, i as int),
        decreases registers - i,
    {
        let d: usize = crate::qubit::reg_size_exec(registers - 1 - i);
        if idx / d % 2 == 1 {
            r.append("1");
        } else {
            r.append("0");
        }
        proof {
            reveal_strlit("0");
            reveal_strlit("1");
            assert(r@ =~= idx_bits(idx as int, registers as nat).subrange(0, i + 1));
        }
        i = i + 1;
    }
    proof {
        assert(idx_bits(idx as int, registers as nat).subrange(0, registers as int) =~= idx_bits(
            idx as int,
            registers as nat,
        ));
    }
    r
}

/// The decimal digits of a natural number, most significant first.
pub open spec fn dec_str(n: nat) -> Seq<char>
    decreases n,
{
    if n < 10 {
        seq![digit_char(n as int)]
    } else {
        dec_str(n / 10).push(digit_char((n % 10) as int))
    }
}

/// The character of one decimal digit.
pub open spec fn digit_char(d: int) -> char {
    if d == 0 {
        '0'
    } else if d == 1 {
        '1'
    } else if d == 2 {
        '2'
    } else if d == 3 {
        '3'
    } else if d == 4 {
        '4'
    } else if d == 5 {
        '5'
    } else if d == 6 {
        '6'
    } else if d == 7 {
        '7'
    } else if d == 8 {
        '8'
    } else {
        '9'
    }
}

/// One decimal digit as a string slice.
fn digit_str(d: u64) -> (r: &'static str)
    requires
        d < 10,
    ensures
        r@ == seq![digit_char(d as int)],
{
    proof {
        reveal_strlit("0");
        reveal_strlit("1");
        reveal_strlit("2");
        reveal_strlit("3");
        reveal_strlit("4");
        reveal_strlit("5");
        reveal_strlit("6");
        reveal_strlit("7");
        reveal_strlit("8");
        reveal_strlit("9");
    }
    let r: &'static str = if d == 0 {
        "0"
    } else if d == 1 {
        "1"
    } else if d == 2 {
        "2"
    } else if d == 3 {
        "3"
    } else if d == 4 {
        "4"
    } else if d == 5 {
        "5"
    } else if d == 6 {
        "6"
    } else if d == 7 {
        "7"
    } else if d == 8 {
        "8"
    } else {
        "9"
    };
    proof {
        assert(r@ =~= seq![digit_char(d as int)]);
    }
    r
}

/// A natural number in decimal.
pub fn u64_to_string(n: u64) -> (r: String)
    ensures
        r@ == dec_str(n as nat),
    decreases n,
{
    if n < 10 {
        let mut r: String = String::new();
        r.append(digit_str(n));
        proof {
            assert(r@ =~= dec_str(n as nat));
        }
        r
    } else {
        let mut r: String = u64_to_string(n / 10);
        r.append(digit_str(n % 10));
        proof {
            assert(r@ =~= dec_str(n as nat));
        }
        r
    }
}

/// A fixed-point scaled real in decimal: optional minus sign, the
/// whole part, a point, and four fraction digits.
pub open spec fn fx_str(x: int) -> Seq<char> {
    let m = if x < 0 {
        -x
    } else {
        x
    };
    let sign: Seq<char> = if x < 0 {
        seq!['-']
    } else {
        Seq::empty()
    };
    let frac = (m % (SCALE as int)) * 10000 / (SCALE as int);
    sign + dec_str((m / (SCALE as int)) as nat) + seq!['.'] + seq![
        digit_char(frac / 1000 % 10),
        digit_char(frac / 100 % 10),
        digit_char(frac / 10 % 10),
        digit_char(frac % 10),
    ]
}

/// Renders one fixed-point scaled real.
pub fn fx_to_string(x: i64) -> (r: String)
    requires
        -1099511627776 <= x <= 1099511627776,
    ensures
        r@ == fx_str(x as int),
{
    let m: u64 = if x < 0 {
        (-x) as u64
    } else {
        x as u64
    };
    let mut r: String = String::new();
    proof {
        reveal_strlit("-");
        reveal_strlit(".");
    }
    if x < 0 {
        r.append("-");
    }
    let whole: String = u64_to_string(m / 65536);
    r.append(whole.as_str());
    r.append(".");
    let frac: u64 = (m % 65536) * 10000 / 65536;
    r.append(digit_str(frac / 1000 % 10));
    r.append(digit_str(frac / 100 % 10));
    r.append(digit_str(frac / 10 % 10));
    r.append(digit_str(frac % 10));
    proof {
        assert(r@ =~= fx_str(x as int));
    }
    r
}

/// How one amplitude prints: the real part alone when the imaginary
/// part is negligible, otherwise `re + im i`.
pub open spec fn amp_str(z: ComplexNumber) -> Seq<char> {
    if -EPS <= z.imaginary <= EPS {
        fx_str(z.real as int)
    } else {
        fx_str(z.real as int) + seq![' ', '+', ' '] + fx_str(z.imaginary as int) + seq!['i']
    }
}

/// Renders one amplitude.
pub fn amp_to_string(z: &ComplexNumber) -> (r: String)
    requires
        -1099511627776 <= z.real <= 1099511627776,
        -1099511627776 <= z.imaginary <= 1099511627776,
    ensures
        r@ == amp_str(*z),
{
    proof {
        reveal_strlit(" + ");
        reveal_strlit("i");
    }
    let mut r: String = fx_to_string(z.real);
    if -EPS <= z.imaginary && z.imaginary <= EPS {
        proof {
            assert(r@ =~= amp_str(*z));
        }
        r
    } else {
        r.append(" + ");
        let im: String = fx_to_string(z.imaginary);
        r.append(im.as_str());
        r.append("i");
        proof {
            assert(r@ =~= amp_str(*z));
        }
        r
    }
}

/// The ket list a state prints as: every amplitude with a component
/// reaching the tolerance as `value |bits>`, joined by commas, in
/// index order; an amplitude with both components within the
/// tolerance of zero is skipped.
pub open spec fn pretty_spec(values: Seq<ComplexNumber>, registers: nat, n: int) -> Seq<char>
    decreases n,
{
    if n <= 0 {
        Seq::empty()
    } else {
        let rest = pretty_spec(values, registers, n - 1);
        if -EPS < values[n - 1].real < EPS && -EPS < values[n - 1].imaginary < EPS {
            rest
        } else {
            let entry = amp_str(values[n - 1]) + seq![' ', '|'] + idx_bits(n - 1, registers)
                + seq!['\u{27e9}'];
            if rest.len() == 0 {
                entry
            } else {
                rest + seq![',', ' '] + entry
            }
        }
    }
}

/// Renders the state as a list of kets, skipping amplitudes of
/// negligible magnitude.
pub fn pretty_print(qubit_values: &Vec<ComplexNumber>, registers: usize) -> (r: String)
    requires
        registers <= 12,
        crate::matrix::vec_amp(qubit_values@),
    ensures
        r@ == pretty_spec(qubit_values@, registers as nat, qubit_values@.len() as int),
{
    let n: usize = qubit_values.len();
    let mut r: String = String::new();
    let mut i: usize = 0;
    proof {
        reveal_strlit(" |");
        reveal_strlit("\u{27e9}");
        reveal_strlit(", ");
    }
    while i < n
        invariant
            registers <= 12,
            crate::matrix::vec_amp(qubit_values@),
            n == qubit_values@.len(),
            i <= n,
            r@ == pretty_spec(qubit_values@, registers as nat, i as int),
        decreases n - i,
    {
        let z: ComplexNumber = qubit_values[i];
        proof {
            assert(crate::matrix::c_amp(qubit_values@[i as int]));
            crate::matrix::lemma_comp_bound(z, 65544);
        }
        if z.real >= EPS || z.real <= -EPS || z.imaginary >= EPS || z.imaginary <= -EPS {
            if r.as_str().unicode_len() != 0 {
                r.append(", ");
            }
            let amp: String = amp_to_string(&z);
            r.append(amp.as_str());
            r.append(" |");
            let bits: String = idx_to_qubit(i, registers);
            r.append(bits.as_str());
            r.append("\u{27e9}");
        }
        proof {
            reveal_strlit(" |");
            reveal_strlit("\u{27e9}");
            reveal_strlit(", ");
            assert(r@ =~= pretty_spec(qubit_values@, registers as nat, i + 1));
        }
        i = i + 1;
    }
    r
}

/// The Bloch coordinates as a renderer expects them: scaled by eight
/// and reordered to `(x, z, y)` for a y-up scene.
pub fn bloch_render_coords(bloch_vectors: &Vec<(i64, i64, i64)>) -> (r: Vec<i64>)
    requires
        forall|i: int|
            0 <= i < bloch_vectors@.len() ==> -1099511627776 <= (#[trigger] bloch_vectors@[i]).0
                <= 1099511627776 && -1099511627776 <= bloch_vectors@[i].1 <= 1099511627776
                && -1099511627776 <= bloch_vectors@[i].2 <= 1099511627776,
    ensures
        r@.len() == 3 * bloch_vectors@.len(),
        forall|i: int|
            0 <= i < bloch_vectors@.len() ==> r@[3 * i] == 8 * (#[trigger] bloch_vectors@[i]).0
                && r@[3 * i + 1] == 8 * bloch_vectors@[i].2 && r@[3 * i + 2] == 8
                * bloch_vectors@[i].1,
{
    let n: usize = bloch_vectors.len();
    let mut r: Vec<i64> = Vec::new();
    let mut i: usize = 0;
    while i < n
        invariant
            forall|k: int|
                0 <= k < bloch_vectors@.len() ==> -1099511627776 <= (
                #[trigger] bloch_vectors@[k]).0 <= 1099511627776 && -1099511627776
                    <= bloch_vectors@[k].1 <= 1099511627776 && -1099511627776
                    <= bloch_vectors@[k].2 <= 1099511627776,
            n == bloch_vectors@.len(),
            i <= n,
            r@.len() == 3 * i,
            forall|k: int|
                0 <= k < i ==> r@[3 * k] == 8 * (#[trigger] bloch_vectors@[k]).0 && r@[3 * k + 1]
                    == 8 * bloch_vectors@[k].2 && r@[3 * k + 2] == 8 * bloch_vectors@[k].1,
        decreases n - i,
    {
        let v: (i64, i64, i64) = bloch_vectors[i];
        r.push(8 * v.0);
        r.push(8 * v.2);
        r.push(8 * v.1);
        i = i + 1;
    }
    r
}

} // verus!
