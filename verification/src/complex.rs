use vstd::prelude::*;

verus! {

/// One unit (the real number 1.0) in the fixed-point encoding: every real
/// quantity in this crate is carried as an `i64` holding `value * SCALE`,
/// rounded toward zero.
pub const SCALE: i64 = 65536;

/// Absolute tolerance used by the approximate equality the simulator exposes
/// (about 0.05 in real terms).
pub const EPS: i64 = 3276;

/// `SCALE * SCALE`, the square of one unit, used for squared-magnitude bounds.
pub const SCALE_SQ: i64 = 4294967296;

/// Division by `SCALE` rounding toward zero, as the executable `/` on `i64`
/// behaves. This is the rounding every fixed-point product goes through.
pub open spec fn scale_down(x: int) -> int {
    if x >= 0 {
        x / (SCALE as int)
    } else {
        -((-x) / (SCALE as int))
    }
}

/// The fixed-point product of two scaled reals.
pub open spec fn fx_mul(x: int, y: int) -> int {
    scale_down(x * y)
}

/// Truncating (toward zero) division, as the executable `/` on `i64`.
pub open spec fn div_trunc(x: int, d: int) -> int {
    if x >= 0 {
        x / d
    } else {
        -((-x) / d)
    }
}

/// A complex scalar: `re + im*i`, both components fixed-point scaled reals.
#[derive(Clone, Copy, Debug)]
pub struct ComplexNumber {
    pub real: i64,
    pub imaginary: i64,
}

/// Squared modulus of `z` in raw (doubly scaled) units: `re^2 + im^2`.
pub open spec fn c_norm2(z: ComplexNumber) -> int {
    z.real * z.real + z.imaginary * z.imaginary
}

/// Entries of gate matrices have modulus at most one unit.
pub open spec fn c_unit(z: ComplexNumber) -> bool {
    c_norm2(z) <= SCALE_SQ
}

/// The exact complex sum (component addition carries no rounding).
pub open spec fn c_add(a: ComplexNumber, b: ComplexNumber) -> ComplexNumber {
    ComplexNumber {
        real: (a.real + b.real) as i64,
        imaginary: (a.imaginary + b.imaginary) as i64,
    }
}

/// The fixed-point complex product:
/// `(a+bi)(c+di) = (ac - bd) + (ad + bc)i`, each component combined at
/// double scale and then scaled down once.
pub open spec fn c_mul(a: ComplexNumber, b: ComplexNumber) -> ComplexNumber {
    ComplexNumber {
        real: scale_down(a.real * b.real - a.imaginary * b.imaginary) as i64,
        imaginary: scale_down(a.real * b.imaginary + a.imaginary * b.real) as i64,
    }
}

/// Fixed-point squared magnitude as the executable code computes it:
/// `re*re/SCALE + im*im/SCALE`, a scaled real.
pub open spec fn c_abs2(z: ComplexNumber) -> int {
    fx_mul(z.real as int, z.real as int) + fx_mul(z.imaginary as int, z.imaginary as int)
}

/// The complex conjugate.
pub open spec fn c_conj(z: ComplexNumber) -> ComplexNumber {
    ComplexNumber { real: z.real, imaginary: (-z.imaginary) as i64 }
}

/// The complex zero.
pub open spec fn c_zero() -> ComplexNumber {
    ComplexNumber { real: 0, imaginary: 0 }
}

/// The complex one.
pub open spec fn c_one() -> ComplexNumber {
    ComplexNumber { real: SCALE, imaginary: 0 }
}

/// Minus one.
pub open spec fn c_neg_one() -> ComplexNumber {
    ComplexNumber { real: (-SCALE) as i64, imaginary: 0 }
}

/// The imaginary unit.
pub open spec fn c_i() -> ComplexNumber {
    ComplexNumber { real: 0, imaginary: SCALE }
}

/// Minus the imaginary unit.
pub open spec fn c_neg_i() -> ComplexNumber {
    ComplexNumber { real: 0, imaginary: (-SCALE) as i64 }
}

/// Componentwise closeness within `tol` (absolute, in scaled units).
pub open spec fn c_close(a: ComplexNumber, b: ComplexNumber, tol: int) -> bool {
    -tol < a.real - b.real < tol && -tol < a.imaginary - b.imaginary < tol
}

impl ComplexNumber {
    pub fn new(re: i64, im: i64) -> (r: Self)
        ensures
            r.real == re,
            r.imaginary == im,
    {
        ComplexNumber { real: re, imaginary: im }
    }

    pub fn from_real(value: i64) -> (r: Self)
        ensures
            r.real == value,
            r.imaginary == 0,
    {
        ComplexNumber { real: value, imaginary: 0 }
    }

    pub fn imag(value: i64) -> (r: Self)
        ensures
            r.real == 0,
            r.imaginary == value,
    {
        ComplexNumber { real: 0, imaginary: value }
    }

    /// The scaled encoding of `1/sqrt(2)`, nearest representable value.
    pub fn sqrt_half() -> (r: Self)
        ensures
            r.real == 46341,
            r.imaginary == 0,
    {
        ComplexNumber { real: 46341, imaginary: 0 }
    }

    pub fn zero() -> (r: Self)
        ensures
            r.real == 0,
            r.imaginary == 0,
    {
        ComplexNumber { real: 0, imaginary: 0 }
    }

    pub fn one() -> (r: Self)
        ensures
            r.real == SCALE,
            r.imaginary == 0,
    {
        ComplexNumber { real: SCALE, imaginary: 0 }
    }

    pub fn conjugate(&self) -> (r: Self)
        requires
            self.imaginary > i64::MIN,
        ensures
            r.real == self.real,
            r.imaginary == -self.imaginary,
    {
        ComplexNumber { real: self.real, imaginary: -self.imaginary }
    }

    /// Squared magnitude, a scaled real.
    pub fn abs_squared(&self) -> (r: i64)
        requires
            c_norm2(*self) <= 4611686018427387904i64,
        ensures
            r == c_abs2(*self),
            0 <= r <= 140737488355328i64,
    {
        proof {
            assert(self.real * self.real >= 0 && self.imaginary * self.imaginary >= 0)
                by (nonlinear_arith);
            lemma_scale_down_shrinks(self.real * self.real);
            lemma_scale_down_shrinks(self.imaginary * self.imaginary);
        }
        fx_i64(self.real, self.real) + fx_i64(self.imaginary, self.imaginary)
    }

    pub fn add(self, rhs: Self) -> (r: Self)
        requires
            i64::MIN <= self.real + rhs.real <= i64::MAX,
            i64::MIN <= self.imaginary + rhs.imaginary <= i64::MAX,
        ensures
            r == c_add(self, rhs),
    {
        ComplexNumber {
            real: self.real + rhs.real,
            imaginary: self.imaginary + rhs.imaginary,
        }
    }

    pub fn mul(self, rhs: Self) -> (r: Self)
        requires
            -1073741824 <= self.real <= 1073741824,
            -1073741824 <= self.imaginary <= 1073741824,
            -1073741824 <= rhs.real <= 1073741824,
            -1073741824 <= rhs.imaginary <= 1073741824,
        ensures
            r == c_mul(self, rhs),
    {
        proof {
            lemma_prod_range(self.real as int, rhs.real as int);
            lemma_prod_range(self.imaginary as int, rhs.imaginary as int);
            lemma_prod_range(self.real as int, rhs.imaginary as int);
            lemma_prod_range(self.imaginary as int, rhs.real as int);
        }
        let re_raw: i64 = self.real * rhs.real - self.imaginary * rhs.imaginary;
        let im_raw: i64 = self.real * rhs.imaginary + self.imaginary * rhs.real;
        proof {
            lemma_scale_down_shrinks(re_raw as int);
            lemma_scale_down_shrinks(im_raw as int);
        }
        ComplexNumber { real: re_raw / SCALE, imaginary: im_raw / SCALE }
    }
}

/// The fixed-point product of two scaled reals, as executable code.
pub fn fx_i64(x: i64, y: i64) -> (r: i64)
    requires
        -4611686018427387904i64 <= x * y <= 4611686018427387904i64,
    ensures
        r == fx_mul(x as int, y as int),
        -70368744177664i64 <= r <= 70368744177664i64,
{
    let p: i64 = x * y;
    proof {
        assert(0 <= p ==> (p as int) / (SCALE as int) <= 70368744177664i64) by (nonlinear_arith)
            requires
                p <= 4611686018427387904i64,
        ;
        assert(p < 0 ==> (-(p as int)) / (SCALE as int) <= 70368744177664i64) by (nonlinear_arith)
            requires
                -4611686018427387904i64 <= p,
        ;
        lemma_scale_down_shrinks(p as int);
    }
    p / SCALE
}

/// Scaling a value up by `SCALE` and down again is exact.
pub proof fn lemma_scale_down_exact(x: int)
    ensures
        scale_down((SCALE as int) * x) == x,
{
    if x >= 0 {
        assert(((SCALE as int) * x) / (SCALE as int) == x) by (nonlinear_arith)
            requires
                x >= 0,
        ;
        assert((SCALE as int) * x >= 0) by (nonlinear_arith)
            requires
                x >= 0,
        ;
    } else {
        assert(((SCALE as int) * (-x)) / (SCALE as int) == -x) by (nonlinear_arith)
            requires
                -x >= 0,
        ;
        assert((SCALE as int) * x < 0) by (nonlinear_arith)
            requires
                x < 0,
        ;
        assert(-((SCALE as int) * x) == (SCALE as int) * (-x)) by (nonlinear_arith);
    }
}

/// Multiplying by the exact constants one, zero, `i`, `-1` and `-i`
/// is exact: no rounding happens because the products are whole
/// multiples of `SCALE`.
pub proof fn lemma_c_mul_exact_units(z: ComplexNumber)
    ensures
        c_mul(c_one(), z) == z,
        c_mul(z, c_one()) == z,
        c_mul(c_zero(), z) == c_zero(),
        c_mul(z, c_zero()) == c_zero(),
        c_mul(c_neg_one(), z) == (ComplexNumber {
            real: (-z.real) as i64,
            imaginary: (-z.imaginary) as i64,
        }),
        c_mul(c_i(), z) == (ComplexNumber { real: (-z.imaginary) as i64, imaginary: z.real }),
        c_mul(c_neg_i(), z) == (ComplexNumber { real: z.imaginary, imaginary: (-z.real) as i64 }),
        c_add(c_zero(), z) == z,
        c_add(z, c_zero()) == z,
{
    lemma_scale_down_exact(z.real as int);
    lemma_scale_down_exact(z.imaginary as int);
    lemma_scale_down_exact(-(z.real as int));
    lemma_scale_down_exact(-(z.imaginary as int));
    lemma_scale_down_exact(0);
    assert((SCALE as int) * z.real == (z.real as int) * (SCALE as int)) by (nonlinear_arith);
    assert((SCALE as int) * z.imaginary == (z.imaginary as int) * (SCALE as int))
        by (nonlinear_arith);
    assert(((-SCALE) as int) * z.real == (SCALE as int) * (-(z.real as int))) by (nonlinear_arith);
    assert(((-SCALE) as int) * z.imaginary == (SCALE as int) * (-(z.imaginary as int)))
        by (nonlinear_arith);
    assert((0int) * z.real == 0 && (0int) * z.imaginary == 0 && z.real * 0int == 0
        && z.imaginary * 0int == 0) by (nonlinear_arith);
}

/// Truncating division differs from the exact quotient by less than
/// one divisor: `|d * div_trunc(x, d) - x| < d`.
pub proof fn lemma_div_trunc_rem(x: int, d: int)
    requires
        d >= 1,
    ensures
        -d < d * div_trunc(x, d) - x < d,
{
    if x >= 0 {
        vstd::arithmetic::div_mod::lemma_fundamental_div_mod(x, d);
        assert(x == d * (x / d) + x % d);
        assert(0 <= x % d < d);
    } else {
        vstd::arithmetic::div_mod::lemma_fundamental_div_mod(-x, d);
        assert(-x == d * ((-x) / d) + (-x) % d);
        assert(0 <= (-x) % d < d);
        assert(d * (-((-x) / d)) == -(d * ((-x) / d))) by (nonlinear_arith);
    }
}

/// Truncating division by a positive divisor never grows magnitude.
pub proof fn lemma_div_trunc_shrinks(x: int, d: int)
    requires
        d >= 1,
    ensures
        x >= 0 ==> 0 <= div_trunc(x, d) <= x,
        x < 0 ==> x <= div_trunc(x, d) <= 0,
{
    if x >= 0 {
        assert(0 <= x / d <= x) by (nonlinear_arith)
            requires
                x >= 0,
                d >= 1,
        ;
    } else {
        assert(0 <= (-x) / d <= -x) by (nonlinear_arith)
            requires
                -x >= 0,
                d >= 1,
        ;
    }
}

/// Products of components within one billion stay far inside `i64`.
pub proof fn lemma_prod_range(x: int, y: int)
    requires
        -1073741824 <= x <= 1073741824,
        -1073741824 <= y <= 1073741824,
    ensures
        -1152921504606846976 <= x * y <= 1152921504606846976,
{
    assert(-1152921504606846976 <= x * y <= 1152921504606846976) by (nonlinear_arith)
        requires
            -1073741824 <= x <= 1073741824,
            -1073741824 <= y <= 1073741824,
    ;
}

/// Scaling a product down never grows its magnitude.
pub proof fn lemma_scale_down_shrinks(x: int)
    ensures
        x >= 0 ==> 0 <= scale_down(x) <= x,
        x < 0 ==> x <= scale_down(x) <= 0,
{
    if x >= 0 {
        assert(0 <= x / (SCALE as int) <= x) by (nonlinear_arith)
            requires
                x >= 0,
        ;
    } else {
        assert(0 <= (-x) / (SCALE as int) <= -x) by (nonlinear_arith)
            requires
                -x >= 0,
        ;
    }
}

impl PartialEq for ComplexNumber {
    /// Approximate equality within the simulator's tolerance, as the
    /// rendering layer and the tests compare amplitudes.
    fn eq(&self, other: &Self) -> (r: bool) {
        let dr: i128 = self.real as i128 - other.real as i128;
        let di: i128 = self.imaginary as i128 - other.imaginary as i128;
        -(EPS as i128) < dr && dr < EPS as i128 && -(EPS as i128) < di && di < EPS as i128
    }
}

impl vstd::std_specs::cmp::PartialEqSpecImpl for ComplexNumber {
    open spec fn obeys_eq_spec() -> bool {
        true
    }

    open spec fn eq_spec(&self, other: &ComplexNumber) -> bool {
        c_close(*self, *other, EPS as int)
    }
}

/// The truncating scale-down differs from the exact quotient by less
/// than one unit: `|SCALE * scale_down(x) - x| < SCALE`.
pub proof fn lemma_scale_down_rem(x: int)
    ensures
        -(SCALE as int) < (SCALE as int) * scale_down(x) - x < (SCALE as int),
{
    if x >= 0 {
        vstd::arithmetic::div_mod::lemma_fundamental_div_mod(x, SCALE as int);
        assert(x == (SCALE as int) * (x / (SCALE as int)) + x % (SCALE as int));
        assert(0 <= x % (SCALE as int) < (SCALE as int));
    } else {
        vstd::arithmetic::div_mod::lemma_fundamental_div_mod(-x, SCALE as int);
        assert(-x == (SCALE as int) * ((-x) / (SCALE as int)) + (-x) % (SCALE as int));
        assert(0 <= (-x) % (SCALE as int) < (SCALE as int));
        assert((SCALE as int) * (-((-x) / (SCALE as int))) == -((SCALE as int) * ((-x) / (
        SCALE as int)))) by (nonlinear_arith);
    }
}

} // verus!
