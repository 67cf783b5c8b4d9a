use vstd::prelude::*;

use crate::complex::{
    c_add, c_mul, c_norm2, c_unit, ComplexNumber, SCALE, SCALE_SQ,
};

verus! {

/// Largest squared modulus any matrix entry may carry (four units):
/// density matrices and their partial traces stay far inside it.
pub const ENTRY_LIM_SQ: i64 = 68719476736;

/// Largest squared modulus of a state amplitude: one unit plus a small
/// headroom of eight ulps for accumulated rounding. `65544 * 65544`.
pub const AMP_LIM_SQ: i64 = 4296015936;

/// Squared-modulus bound for one state amplitude.
pub open spec fn c_amp(z: ComplexNumber) -> bool {
    c_norm2(z) <= AMP_LIM_SQ
}

/// A dense complex matrix with its (rows, cols) shape.
#[derive(Clone, Debug)]
pub struct Matrix {
    pub value: Vec<Vec<ComplexNumber>>,
    pub rows: usize,
    pub cols: usize,
}

/// The entry in row `i`, column `j`.
pub open spec fn ent(m: &Matrix, i: int, j: int) -> ComplexNumber {
    m.value@[i]@[j]
}

/// Well-formedness: the shape matches the storage, the matrix is
/// nonempty, and every entry's squared modulus is within `ENTRY_LIM_SQ`.
pub open spec fn mat_wf(m: &Matrix) -> bool {
    &&& m.value@.len() == m.rows
    &&& 1 <= m.rows <= 65536
    &&& 1 <= m.cols <= 65536
    &&& forall|i: int| 0 <= i < m.rows ==> (#[trigger] m.value@[i])@.len() == m.cols
    &&& forall|i: int, j: int|
        0 <= i < m.rows && 0 <= j < m.cols ==> c_norm2(#[trigger] ent(m, i, j))
            <= ENTRY_LIM_SQ
}

/// A gate matrix: every entry has modulus at most one unit.
pub open spec fn mat_unit(m: &Matrix) -> bool {
    forall|i: int, j: int|
        0 <= i < m.rows && 0 <= j < m.cols ==> c_unit(#[trigger] ent(m, i, j))
}

/// A squared modulus within `b*b` bounds each component by `b`.
pub proof fn lemma_comp_bound(z: ComplexNumber, b: int)
    requires
        c_norm2(z) <= b * b,
        0 <= b,
    ensures
        -b <= z.real <= b,
        -b <= z.imaginary <= b,
{
    assert(-b <= z.real <= b && -b <= z.imaginary <= b) by (nonlinear_arith)
        requires
            z.real * z.real + z.imaginary * z.imaginary <= b * b,
            0 <= b,
    ;
}

/// The squared modulus of a fixed-point complex product is bounded by
/// the product of the factors' bounds, scaled: rounding toward zero only
/// shrinks components, and exactly
/// `(ac-bd)^2 + (ad+bc)^2 == (a^2+b^2) * (c^2+d^2)`.
pub proof fn lemma_c_mul_norm(a: ComplexNumber, b: ComplexNumber, na2: int, nb2: int)
    requires
        c_norm2(a) <= na2,
        c_norm2(b) <= nb2,
        0 <= na2 <= ENTRY_LIM_SQ,
        0 <= nb2 <= ENTRY_LIM_SQ,
    ensures
        c_norm2(c_mul(a, b)) * SCALE_SQ <= na2 * nb2,
        c_norm2(c_mul(a, b)) >= 0,
{
    lemma_comp_bound(a, 262144);
    lemma_comp_bound(b, 262144);
    let are = a.real as int;
    let aim = a.imaginary as int;
    let bre = b.real as int;
    let bim = b.imaginary as int;
    let re_e = are * bre - aim * bim;
    let im_e = are * bim + aim * bre;
    lemma_brahmagupta(are, aim, bre, bim);
    assert(0 <= are * are + aim * aim && 0 <= bre * bre + bim * bim) by (nonlinear_arith);
    assert((are * are + aim * aim) * (bre * bre + bim * bim) <= na2 * nb2) by (nonlinear_arith)
        requires
            are * are + aim * aim <= na2,
            bre * bre + bim * bim <= nb2,
            0 <= na2,
            0 <= nb2,
            0 <= are * are + aim * aim,
            0 <= bre * bre + bim * bim,
    ;
    let rr = crate::complex::scale_down(re_e);
    let ii = crate::complex::scale_down(im_e);
    lemma_scaled_square(re_e);
    lemma_scaled_square(im_e);
    assert(rr * rr * SCALE_SQ + ii * ii * SCALE_SQ <= re_e * re_e + im_e * im_e);
    assert(-137438953472 <= re_e <= 137438953472 && -137438953472 <= im_e <= 137438953472)
        by (nonlinear_arith)
        requires
            -262144 <= are <= 262144,
            -262144 <= aim <= 262144,
            -262144 <= bre <= 262144,
            -262144 <= bim <= 262144,
            re_e == are * bre - aim * bim,
            im_e == are * bim + aim * bre,
    ;
    assert(c_mul(a, b).real == rr && c_mul(a, b).imaginary == ii) by {
        crate::complex::lemma_scale_down_shrinks(re_e);
        crate::complex::lemma_scale_down_shrinks(im_e);
    }
    assert((rr * rr + ii * ii) * SCALE_SQ == rr * rr * SCALE_SQ + ii * ii * SCALE_SQ)
        by (nonlinear_arith);
    assert(rr * rr >= 0 && ii * ii >= 0) by (nonlinear_arith);
}

/// `(pr - qs)^2 + (ps + qr)^2 == (p^2 + q^2) * (r^2 + s^2)`.
proof fn lemma_brahmagupta(p: int, q: int, r: int, s: int)
    ensures
        (p * r - q * s) * (p * r - q * s) + (p * s + q * r) * (p * s + q * r) == (p * p + q * q) * (
        r * r + s * s),
{
    let u = p * r;
    let v = q * s;
    let w = p * s;
    let x = q * r;
    assert(u * v == w * x) by (nonlinear_arith)
        requires
            u == p * r && v == q * s && w == p * s && x == q * r,
    ;
    let a = p * p;
    let b = q * q;
    let c = r * r;
    let d = s * s;
    assert((a + b) * (c + d) == a * c + a * d + b * c + b * d) by (nonlinear_arith);
    assert(a * c == u * u) by (nonlinear_arith)
        requires
            a == p * p && c == r * r && u == p * r,
    ;
    assert(b * d == v * v) by (nonlinear_arith)
        requires
            b == q * q && d == s * s && v == q * s,
    ;
    assert(a * d == w * w) by (nonlinear_arith)
        requires
            a == p * p && d == s * s && w == p * s,
    ;
    assert(b * c == x * x) by (nonlinear_arith)
        requires
            b == q * q && c == r * r && x == q * r,
    ;
    assert((u - v) * (u - v) + (w + x) * (w + x) == u * u - 2 * (u * v) + v * v + w * w + 2 * (w
        * x) + x * x) by (nonlinear_arith);
}

/// `(x/SCALE)^2 * SCALE^2 <= x^2` for the truncating scale-down.
proof fn lemma_scaled_square(x: int)
    ensures
        crate::complex::scale_down(x) * crate::complex::scale_down(x) * SCALE_SQ <= x * x,
{
    let d = crate::complex::scale_down(x);
    if x >= 0 {
        assert(d * (SCALE as int) <= x && d >= 0) by (nonlinear_arith)
            requires
                x >= 0,
                d == x / (SCALE as int),
        ;
        assert(d * d * SCALE_SQ <= x * x) by (nonlinear_arith)
            requires
                0 <= d * (SCALE as int) <= x,
                d >= 0,
                SCALE_SQ == (SCALE as int) * (SCALE as int),
        ;
    } else {
        assert((-d) * (SCALE as int) <= -x && -d >= 0) by (nonlinear_arith)
            requires
                x < 0,
                d == -((-x) / (SCALE as int)),
        ;
        assert(d * d * SCALE_SQ <= x * x) by (nonlinear_arith)
            requires
                0 <= (-d) * (SCALE as int) <= -x,
                -d >= 0,
                SCALE_SQ == (SCALE as int) * (SCALE as int),
        ;
    }
}

/// Product of a matrix entry with an amplitude: each factor's
/// components fit the multiplication's range and each resulting
/// component stays below `525000`.
pub proof fn lemma_mul_fits(a: ComplexNumber, b: ComplexNumber)
    requires
        c_norm2(a) <= ENTRY_LIM_SQ,
        c_norm2(b) <= AMP_LIM_SQ,
    ensures
        -262144 <= a.real <= 262144,
        -262144 <= a.imaginary <= 262144,
        -65544 <= b.real <= 65544,
        -65544 <= b.imaginary <= 65544,
        -525000 <= c_mul(a, b).real <= 525000,
        -525000 <= c_mul(a, b).imaginary <= 525000,
{
    lemma_comp_bound(a, 262144);
    lemma_comp_bound(b, 65544);
    let re_e = a.real * b.real - a.imaginary * b.imaginary;
    let im_e = a.real * b.imaginary + a.imaginary * b.real;
    assert(-34368126976 <= re_e <= 34368126976 && -34368126976 <= im_e <= 34368126976)
        by (nonlinear_arith)
        requires
            -262144 <= a.real <= 262144,
            -262144 <= a.imaginary <= 262144,
            -65544 <= b.real <= 65544,
            -65544 <= b.imaginary <= 65544,
            re_e == a.real * b.real - a.imaginary * b.imaginary,
            im_e == a.real * b.imaginary + a.imaginary * b.real,
    ;
    assert(re_e >= 0 ==> re_e / (SCALE as int) <= 525000) by (nonlinear_arith)
        requires
            re_e <= 34368126976,
    ;
    assert(re_e < 0 ==> (-re_e) / (SCALE as int) <= 525000) by (nonlinear_arith)
        requires
            -34368126976 <= re_e,
    ;
    assert(im_e >= 0 ==> im_e / (SCALE as int) <= 525000) by (nonlinear_arith)
        requires
            im_e <= 34368126976,
    ;
    assert(im_e < 0 ==> (-im_e) / (SCALE as int) <= 525000) by (nonlinear_arith)
        requires
            -34368126976 <= im_e,
    ;
    crate::complex::lemma_scale_down_shrinks(re_e);
    crate::complex::lemma_scale_down_shrinks(im_e);
}

/// The sum of the first `n` products `row[j] * v[j]`, in index order:
/// the mathematical meaning of one matrix-vector dot entry.
pub open spec fn csum_prod(row: Seq<ComplexNumber>, v: Seq<ComplexNumber>, n: int) -> ComplexNumber
    decreases n,
{
    if n <= 0 {
        ComplexNumber { real: 0, imaginary: 0 }
    } else {
        c_add(csum_prod(row, v, n - 1), c_mul(row[n - 1], v[n - 1]))
    }
}

/// A vector whose amplitudes all fit the amplitude bound.
pub open spec fn vec_amp(v: Seq<ComplexNumber>) -> bool {
    forall|i: int| 0 <= i < v.len() ==> c_amp(#[trigger] v[i])
}

impl Matrix {
    /// Wraps a rectangular, nonempty array of entries.
    pub fn new(value: Vec<Vec<ComplexNumber>>) -> (r: Matrix)
        requires
            1 <= value@.len() <= 65536,
            value@[0]@.len() >= 1,
            forall|i: int|
                0 <= i < value@.len() ==> 1 <= (#[trigger] value@[i])@.len() == value@[0]@.len()
                    <= 65536,
            forall|i: int, j: int|
                0 <= i < value@.len() && 0 <= j < value@[0]@.len() ==> c_norm2(
                    #[trigger] value@[i]@[j],
                ) <= ENTRY_LIM_SQ,
        ensures
            mat_wf(&r),
            r.rows == value@.len(),
            r.cols == value@[0]@.len(),
            forall|i: int, j: int|
                0 <= i < r.rows && 0 <= j < r.cols ==> #[trigger] ent(&r, i, j)
                    == value@[i]@[j],
    {
        let rows: usize = value.len();
        let cols: usize = value[0].len();
        Matrix { value, rows, cols }
    }

    /// Number of rows.
    pub fn len(&self) -> (r: usize)
        ensures
            r == self.rows,
    {
        self.rows
    }

    /// The entry in row `i`, column `j`.
    pub fn get(&self, i: usize, j: usize) -> (r: ComplexNumber)
        requires
            mat_wf(self),
            i < self.rows,
            j < self.cols,
        ensures
            r == ent(self, i as int, j as int),
    {
        self.value[i][j]
    }

    /// Elementwise multiplication by a scalar of modulus at most one.
    pub fn scale(self, rhs: ComplexNumber) -> (r: Matrix)
        requires
            mat_wf(&self),
            mat_unit(&self),
            c_unit(rhs),
        ensures
            mat_wf(&r),
            mat_unit(&r),
            r.rows == self.rows,
            r.cols == self.cols,
            forall|i: int, j: int|
                0 <= i < r.rows && 0 <= j < r.cols ==> #[trigger] ent(&r, i, j) == c_mul(
                    ent(&self, i, j),
                    rhs,
                ),
    {
        let rows: usize = self.rows;
        let cols: usize = self.cols;
        let mut value: Vec<Vec<ComplexNumber>> = Vec::new();
        let mut i: usize = 0;
        while i < rows
            invariant
                mat_wf(&self),
                mat_unit(&self),
                c_unit(rhs),
                rows == self.rows,
                cols == self.cols,
                i <= rows,
                value@.len() == i,
                forall|p: int| 0 <= p < i ==> (#[trigger] value@[p])@.len() == cols,
                forall|p: int, q: int|
                    0 <= p < i && 0 <= q < cols ==> #[trigger] value@[p]@[q] == c_mul(
                        ent(&self, p, q),
                        rhs,
                    ),
                forall|p: int, q: int|
                    0 <= p < i && 0 <= q < cols ==> c_unit(#[trigger] value@[p]@[q]),
            decreases rows - i,
        {
            let mut row: Vec<ComplexNumber> = Vec::new();
            let mut j: usize = 0;
            while j < cols
                invariant
                    mat_wf(&self),
                    mat_unit(&self),
                    c_unit(rhs),
                    rows == self.rows,
                    cols == self.cols,
                    i < rows,
                    j <= cols,
                    row@.len() == j,
                    forall|q: int|
                        0 <= q < j ==> #[trigger] row@[q] == c_mul(ent(&self, i as int, q), rhs),
                    forall|q: int| 0 <= q < j ==> c_unit(#[trigger] row@[q]),
                decreases cols - j,
            {
                let a: ComplexNumber = self.value[i][j];
                proof {
                    assert(c_unit(ent(&self, i as int, j as int)));
                    lemma_mul_fits(a, rhs);
                    lemma_c_mul_norm(a, rhs, SCALE_SQ as int, SCALE_SQ as int);
                }
                row.push(a.mul(rhs));
                j = j + 1;
            }
            value.push(row);
            i = i + 1;
        }
        Matrix { value, rows, cols }
    }

    /// The Kronecker (tensor) product: with `self` of shape `(ra, ca)`
    /// and `other` of shape `(rb, cb)`, the result has shape
    /// `(ra*rb, ca*cb)` and entry `(i, j)` equal to
    /// `self[i/rb][j/cb] * other[i%rb][j%cb]`.
    pub fn kronecker(&self, other: &Matrix) -> (r: Matrix)
        requires
            mat_wf(self),
            mat_unit(self),
            mat_wf(other),
            mat_unit(other),
            self.rows * other.rows <= 65536,
            self.cols * other.cols <= 65536,
        ensures
            mat_wf(&r),
            mat_unit(&r),
            r.rows == self.rows * other.rows,
            r.cols == self.cols * other.cols,
            mat_view(&r) == kron_spec(mat_view(self), mat_view(other)),
            forall|i: int, j: int|
                0 <= i < r.rows && 0 <= j < r.cols ==> #[trigger] ent(&r, i, j) == c_mul(
                    ent(self, i / (other.rows as int), j / (other.cols as int)),
                    ent(other, i % (other.rows as int), j % (other.cols as int)),
                ),
    {
        let rb: usize = other.rows;
        let cb: usize = other.cols;
        let rows: usize = self.rows * rb;
        let cols: usize = self.cols * cb;
        proof {
            assert(rows >= 1 && cols >= 1) by (nonlinear_arith)
                requires
                    rows == self.rows * other.rows,
                    cols == self.cols * other.cols,
                    self.rows >= 1 && other.rows >= 1,
                    self.cols >= 1 && other.cols >= 1,
            ;
        }
        let mut value: Vec<Vec<ComplexNumber>> = Vec::new();
        let mut i: usize = 0;
        while i < rows
            invariant
                mat_wf(self),
                mat_unit(self),
                mat_wf(other),
                mat_unit(other),
                rb == other.rows,
                cb == other.cols,
                rows == self.rows * rb,
                cols == self.cols * cb,
                rows <= 65536,
                cols <= 65536,
                i <= rows,
                value@.len() == i,
                forall|p: int| 0 <= p < i ==> (#[trigger] value@[p])@.len() == cols,
                forall|p: int, q: int|
                    0 <= p < i && 0 <= q < cols ==> #[trigger] value@[p]@[q] == c_mul(
                        ent(self, p / (rb as int), q / (cb as int)),
                        ent(other, p % (rb as int), q % (cb as int)),
                    ),
                forall|p: int, q: int|
                    0 <= p < i && 0 <= q < cols ==> c_unit(#[trigger] value@[p]@[q]),
            decreases rows - i,
        {
            let mut row: Vec<ComplexNumber> = Vec::new();
            let mut j: usize = 0;
            while j < cols
                invariant
                    mat_wf(self),
                    mat_unit(self),
                    mat_wf(other),
                    mat_unit(other),
                    rb == other.rows,
                    cb == other.cols,
                    rows == self.rows * rb,
                    cols == self.cols * cb,
                    rows <= 65536,
                    cols <= 65536,
                    i < rows,
                    j <= cols,
                    row@.len() == j,
                    forall|q: int|
                        0 <= q < j ==> #[trigger] row@[q] == c_mul(
                            ent(self, i as int / (rb as int), q / (cb as int)),
                            ent(other, i as int % (rb as int), q % (cb as int)),
                        ),
                    forall|q: int| 0 <= q < j ==> c_unit(#[trigger] row@[q]),
                decreases cols - j,
            {
                proof {
                    assert(i / rb < self.rows && j / cb < self.cols) by (nonlinear_arith)
                        requires
                            i < self.rows * rb,
                            j < self.cols * cb,
                            rb >= 1,
                            cb >= 1,
                    ;
                }
                let a: ComplexNumber = self.value[i / rb][j / cb];
                let b: ComplexNumber = other.value[i % rb][j % cb];
                proof {
                    assert(c_unit(ent(self, i as int / (rb as int), j as int / (cb as int))));
                    assert(c_unit(ent(other, i as int % (rb as int), j as int % (cb as int))));
                    lemma_mul_fits(a, b);
                    lemma_c_mul_norm(a, b, SCALE_SQ as int, SCALE_SQ as int);
                }
                row.push(a.mul(b));
                j = j + 1;
            }
            value.push(row);
            i = i + 1;
        }
        let r = Matrix { value, rows, cols };
        proof {
            let ks = kron_spec(mat_view(self), mat_view(other));
            assert(mat_view(self)[0].len() == self.cols);
            assert(mat_view(other)[0].len() == other.cols);
            assert forall|p: int| 0 <= p < rows implies mat_view(&r)[p] == ks[p] by {
                assert forall|q: int| 0 <= q < cols implies mat_view(&r)[p][q] == ks[p][q] by {
                    assert(mat_view(&r)[p][q] == r.value@[p]@[q]);
                    assert(ks[p][q] == c_mul(
                        mat_view(self)[p / (rb as int)][q / (cb as int)],
                        mat_view(other)[p % (rb as int)][q % (cb as int)],
                    ));
                    assert(0 <= p / (rb as int) < self.rows && 0 <= q / (cb as int) < self.cols)
                        by (nonlinear_arith)
                        requires
                            0 <= p < self.rows * rb,
                            0 <= q < self.cols * cb,
                            rb >= 1,
                            cb >= 1,
                    ;
                }
                assert(mat_view(&r)[p] =~= ks[p]);
            }
            assert(mat_view(&r) =~= ks);
        }
        r
    }

    /// The matrix-vector product: entry `i` of the result is
    /// `sum_j self[i][j] * v[j]`, accumulated in index order.
    pub fn dot(&self, vector: &Vec<ComplexNumber>) -> (r: Vec<ComplexNumber>)
        requires
            mat_wf(self),
            vector@.len() == self.cols,
            vec_amp(vector@),
        ensures
            r@.len() == self.rows,
            forall|i: int|
                0 <= i < r@.len() ==> #[trigger] r@[i] == csum_prod(
                    self.value@[i]@,
                    vector@,
                    self.cols as int,
                ),
    {
        let rows: usize = self.rows;
        let cols: usize = self.cols;
        let mut result: Vec<ComplexNumber> = Vec::new();
        let mut i: usize = 0;
        while i < rows
            invariant
                mat_wf(self),
                vec_amp(vector@),
                vector@.len() == cols,
                rows == self.rows,
                cols == self.cols,
                i <= rows,
                result@.len() == i,
                forall|p: int|
                    0 <= p < i ==> #[trigger] result@[p] == csum_prod(
                        self.value@[p]@,
                        vector@,
                        cols as int,
                    ),
            decreases rows - i,
        {
            let mut acc: ComplexNumber = ComplexNumber::zero();
            let mut j: usize = 0;
            while j < cols
                invariant
                    mat_wf(self),
                    vec_amp(vector@),
                    vector@.len() == cols,
                    rows == self.rows,
                    cols == self.cols,
                    i < rows,
                    j <= cols,
                    acc == csum_prod(self.value@[i as int]@, vector@, j as int),
                    -(j * 525000) <= acc.real <= j * 525000,
                    -(j * 525000) <= acc.imaginary <= j * 525000,
                decreases cols - j,
            {
                let a: ComplexNumber = self.value[i][j];
                let b: ComplexNumber = vector[j];
                proof {
                    assert(c_norm2(ent(self, i as int, j as int)) <= ENTRY_LIM_SQ);
                    assert(c_amp(vector@[j as int]));
                    lemma_mul_fits(a, b);
                }
                acc = acc.add(a.mul(b));
                j = j + 1;
            }
            result.push(acc);
            i = i + 1;
        }
        result
    }
}

/// The mathematical content of a matrix: its sequence of rows.
pub open spec fn mat_view(m: &Matrix) -> Seq<Seq<ComplexNumber>> {
    Seq::new(m.rows as nat, |i: int| m.value@[i]@)
}

/// The Kronecker product at the specification level, on nonempty row
/// sequences: entry `(i, j)` is `a[i/rb][j/cb] * b[i%rb][j%cb]`.
pub open spec fn kron_spec(a: Seq<Seq<ComplexNumber>>, b: Seq<Seq<ComplexNumber>>) -> Seq<
    Seq<ComplexNumber>,
> {
    let rb = b.len() as int;
    let cb = b[0].len() as int;
    Seq::new(
        (a.len() * b.len()) as nat,
        |i: int|
            Seq::new(
                (a[0].len() * b[0].len()) as nat,
                |j: int| c_mul(a[i / rb][j / cb], b[i % rb][j % cb]),
            ),
    )
}

/// The 1x1 matrix holding one, the Kronecker fold's starting point.
pub open spec fn one_by_one() -> Seq<Seq<ComplexNumber>> {
    seq![seq![crate::complex::c_one()]]
}

/// The value one of the four fourth roots of unity denoted by a code:
/// `0 -> 1`, `1 -> -1`, `2 -> i`, `3 -> -i`.
pub open spec fn root_of_unity(code: u8) -> ComplexNumber {
    if code == 0 {
        ComplexNumber { real: SCALE, imaginary: 0 }
    } else if code == 1 {
        ComplexNumber { real: (-SCALE) as i64, imaginary: 0 }
    } else if code == 2 {
        ComplexNumber { real: 0, imaginary: SCALE }
    } else {
        ComplexNumber { real: 0, imaginary: (-SCALE) as i64 }
    }
}

/// The entries of a coded permutation matrix: row `i` holds the root of
/// unity `code[i]` in column `perm[i]` and zeros elsewhere.
pub open spec fn coded_perm_entry(perm: Seq<usize>, code: Seq<u8>, i: int, j: int) -> ComplexNumber {
    if j == perm[i] {
        root_of_unity(code[i])
    } else {
        ComplexNumber { real: 0, imaginary: 0 }
    }
}

/// Builds the square matrix with exactly one root of unity per row,
/// in column `perm[i]`: all the fixed catalog gates except the Hadamard
/// have this shape.
pub fn coded_permutation(perm: &Vec<usize>, code: &Vec<u8>) -> (r: Matrix)
    requires
        1 <= perm@.len() <= 65536,
        code@.len() == perm@.len(),
        forall|i: int| 0 <= i < perm@.len() ==> #[trigger] perm@[i] < perm@.len(),
    ensures
        mat_wf(&r),
        mat_unit(&r),
        r.rows == perm@.len(),
        r.cols == perm@.len(),
        forall|i: int, j: int|
            0 <= i < r.rows && 0 <= j < r.cols ==> #[trigger] ent(&r, i, j)
                == coded_perm_entry(perm@, code@, i, j),
{
    let n: usize = perm.len();
    let mut value: Vec<Vec<ComplexNumber>> = Vec::new();
    let mut i: usize = 0;
    while i < n
        invariant
            n == perm@.len(),
            code@.len() == n,
            forall|p: int| 0 <= p < n ==> #[trigger] perm@[p] < n,
            i <= n,
            value@.len() == i,
            forall|p: int| 0 <= p < i ==> (#[trigger] value@[p])@.len() == n,
            forall|p: int, q: int|
                0 <= p < i && 0 <= q < n ==> #[trigger] value@[p]@[q] == coded_perm_entry(
                    perm@,
                    code@,
                    p,
                    q,
                ),
            forall|p: int, q: int| 0 <= p < i && 0 <= q < n ==> c_unit(#[trigger] value@[p]@[q]),
        decreases n - i,
    {
        let target: usize = perm[i];
        let c: u8 = code[i];
        let entry: ComplexNumber = if c == 0 {
            ComplexNumber::new(SCALE, 0)
        } else if c == 1 {
            ComplexNumber::new(-SCALE, 0)
        } else if c == 2 {
            ComplexNumber::new(0, SCALE)
        } else {
            ComplexNumber::new(0, -SCALE)
        };
        proof {
            assert(c_norm2(entry) <= SCALE_SQ) by (nonlinear_arith)
                requires
                    (entry.real == SCALE || entry.real == -SCALE || entry.real == 0) && (
                    entry.imaginary == SCALE || entry.imaginary == -SCALE || entry.imaginary == 0)
                        && !(entry.real != 0 && entry.imaginary != 0),
            ;
        }
        let mut row: Vec<ComplexNumber> = Vec::new();
        let mut j: usize = 0;
        while j < n
            invariant
                n == perm@.len(),
                code@.len() == n,
                i < n,
                target == perm@[i as int],
                entry == root_of_unity(code@[i as int]),
                c_unit(entry),
                j <= n,
                row@.len() == j,
                forall|q: int|
                    0 <= q < j ==> #[trigger] row@[q] == coded_perm_entry(perm@, code@, i as int, q),
            decreases n - j,
        {
            if j == target {
                row.push(entry);
            } else {
                row.push(ComplexNumber::new(0, 0));
            }
            j = j + 1;
        }
        value.push(row);
        i = i + 1;
    }
    Matrix { value, rows: n, cols: n }
}

impl Matrix {
    /// An entrywise copy.
    pub fn duplicate(&self) -> (r: Matrix)
        requires
            mat_wf(self),
        ensures
            mat_wf(&r),
            r.rows == self.rows,
            r.cols == self.cols,
            forall|i: int, j: int|
                0 <= i < r.rows && 0 <= j < r.cols ==> #[trigger] ent(&r, i, j) == ent(self, i, j),
            mat_view(&r) == mat_view(self),
    {
        let rows: usize = self.rows;
        let cols: usize = self.cols;
        let mut value: Vec<Vec<ComplexNumber>> = Vec::new();
        let mut i: usize = 0;
        while i < rows
            invariant
                mat_wf(self),
                rows == self.rows,
                cols == self.cols,
                i <= rows,
                value@.len() == i,
                forall|p: int| 0 <= p < i ==> (#[trigger] value@[p])@.len() == cols,
                forall|p: int, q: int|
                    0 <= p < i && 0 <= q < cols ==> #[trigger] value@[p]@[q] == ent(self, p, q),
            decreases rows - i,
        {
            let mut row: Vec<ComplexNumber> = Vec::new();
            let mut j: usize = 0;
            while j < cols
                invariant
                    mat_wf(self),
                    rows == self.rows,
                    cols == self.cols,
                    i < rows,
                    j <= cols,
                    row@.len() == j,
                    forall|q: int| 0 <= q < j ==> #[trigger] row@[q] == ent(self, i as int, q),
                decreases cols - j,
            {
                let z: ComplexNumber = self.value[i][j];
                row.push(z);
                j = j + 1;
            }
            value.push(row);
            i = i + 1;
        }
        let r = Matrix { value, rows, cols };
        proof {
            assert forall|p: int| 0 <= p < rows implies mat_view(&r)[p] == mat_view(self)[p] by {
                assert(mat_view(&r)[p] =~= mat_view(self)[p]);
            }
            assert(mat_view(&r) =~= mat_view(self));
        }
        r
    }
}

} // verus!
