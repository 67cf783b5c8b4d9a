use vstd::prelude::*;

use crate::complex::{fx_mul, fx_i64, scale_down, SCALE, SCALE_SQ, c_norm2, ComplexNumber};

verus! {

/// Pi in the fixed-point encoding (nearest representable value).
pub const PI_FX: i64 = 205887;

/// Pi/2 in the fixed-point encoding.
pub const HALF_PI_FX: i64 = 102944;

/// 2*Pi in the fixed-point encoding.
pub const TWO_PI_FX: i64 = 411775;

/// Largest angle (about 64 radians either way) the trigonometric helpers
/// accept; gate angles are kept within this range.
pub const THETA_LIM: i64 = 4194304;

/// Largest argument (4.0 either way) accepted by the real exponential.
pub const EXP_ARG_LIM: i64 = 262144;

/// The signed remainder as the executable `%` on `i64` computes it
/// (sign follows the dividend).
pub open spec fn rem_trunc(x: int, d: int) -> int {
    if x >= 0 {
        x % d
    } else {
        -((-x) % d)
    }
}

/// Angle reduction into `[-PI_FX, PI_FX]`: the remainder modulo a full
/// turn, shifted by one turn when it lands beyond half a turn.
pub open spec fn reduce_angle_spec(theta: int) -> int {
    let m = rem_trunc(theta, TWO_PI_FX as int);
    if m > PI_FX {
        m - TWO_PI_FX
    } else if m < -PI_FX {
        m + TWO_PI_FX
    } else {
        m
    }
}

/// Degree-six polynomial kernel for the cosine on `[0, PI/2]`:
/// `1 - y^2/2 + y^4/24 - y^6/720` evaluated by Horner steps in
/// fixed point, clamped into one unit.
pub open spec fn cos_kernel_spec(y: int) -> int {
    let x2 = fx_mul(y, y);
    let h1 = 2731 - fx_mul(x2, 91);
    let h2 = 32768 - fx_mul(x2, h1);
    let r = (SCALE as int) - fx_mul(x2, h2);
    clamp_unit_spec(r)
}

/// Degree-seven polynomial kernel for the sine on `[0, PI/2]`:
/// `y*(1 - y^2/6 + y^4/120 - y^6/5040)` in fixed point, clamped.
pub open spec fn sin_kernel_spec(y: int) -> int {
    let x2 = fx_mul(y, y);
    let h1 = 546 - fx_mul(x2, 13);
    let h2 = 10923 - fx_mul(x2, h1);
    let h3 = (SCALE as int) - fx_mul(x2, h2);
    let r = fx_mul(y, h3);
    clamp_unit_spec(r)
}

pub open spec fn clamp_unit_spec(r: int) -> int {
    if r > SCALE {
        SCALE as int
    } else if r < -SCALE {
        -(SCALE as int)
    } else {
        r
    }
}

/// The cosine over the whole accepted range: reduce, fold onto
/// `[0, PI/2]` by symmetry, then the kernel.
pub open spec fn cos_fx_spec(theta: int) -> int {
    let t = reduce_angle_spec(theta);
    let y = if t < 0 { -t } else { t };
    if y <= HALF_PI_FX {
        cos_kernel_spec(y)
    } else {
        -cos_kernel_spec(PI_FX - y)
    }
}

/// The sine over the whole accepted range.
pub open spec fn sin_fx_spec(theta: int) -> int {
    let t = reduce_angle_spec(theta);
    let y = if t < 0 { -t } else { t };
    let s = if y <= HALF_PI_FX {
        sin_kernel_spec(y)
    } else {
        sin_kernel_spec(PI_FX - y)
    };
    if t < 0 {
        -s
    } else {
        s
    }
}

/// Magnitude bound for a fixed-point product from bounds on its factors.
pub proof fn lemma_fx_mul_bound(x: int, y: int, bx: int, by: int)
    requires
        -bx <= x <= bx,
        -by <= y <= by,
        0 <= bx,
        0 <= by,
    ensures
        -(bx * by) <= x * y <= bx * by,
        -(bx * by / (SCALE as int)) <= fx_mul(x, y) <= bx * by / (SCALE as int),
{
    assert(-(bx * by) <= x * y <= bx * by) by (nonlinear_arith)
        requires
            -bx <= x <= bx,
            -by <= y <= by,
            0 <= bx,
            0 <= by,
    ;
    assert(x * y >= 0 ==> (x * y) / (SCALE as int) <= (bx * by) / (SCALE as int))
        by (nonlinear_arith)
        requires
            x * y <= bx * by,
    ;
    assert(x * y < 0 ==> (-(x * y)) / (SCALE as int) <= (bx * by) / (SCALE as int))
        by (nonlinear_arith)
        requires
            -(bx * by) <= x * y,
    ;
    assert((bx * by) / (SCALE as int) >= 0) by (nonlinear_arith)
        requires
            bx * by >= 0,
    ;
    crate::complex::lemma_scale_down_shrinks(x * y);
}

fn clamp_unit(r: i64) -> (c: i64)
    ensures
        c == clamp_unit_spec(r as int),
        -SCALE <= c <= SCALE,
{
    if r > SCALE {
        SCALE
    } else if r < -SCALE {
        -SCALE
    } else {
        r
    }
}

fn cos_kernel(y: i64) -> (r: i64)
    requires
        0 <= y <= HALF_PI_FX + 1,
    ensures
        r == cos_kernel_spec(y as int),
        -SCALE <= r <= SCALE,
{
    proof {
        lemma_fx_mul_bound(y as int, y as int, 102945, 102945);
    }
    let x2: i64 = fx_i64(y, y);
    proof {
        lemma_fx_mul_bound(x2 as int, 91, 161708, 91);
    }
    let h1: i64 = 2731 - fx_i64(x2, 91);
    proof {
        lemma_fx_mul_bound(x2 as int, h1 as int, 161708, 2956);
    }
    let h2: i64 = 32768 - fx_i64(x2, h1);
    proof {
        lemma_fx_mul_bound(x2 as int, h2 as int, 161708, 40063);
    }
    let r: i64 = SCALE - fx_i64(x2, h2);
    clamp_unit(r)
}

fn sin_kernel(y: i64) -> (r: i64)
    requires
        0 <= y <= HALF_PI_FX + 1,
    ensures
        r == sin_kernel_spec(y as int),
        -SCALE <= r <= SCALE,
{
    proof {
        lemma_fx_mul_bound(y as int, y as int, 102945, 102945);
    }
    let x2: i64 = fx_i64(y, y);
    proof {
        lemma_fx_mul_bound(x2 as int, 13, 161708, 13);
    }
    let h1: i64 = 546 - fx_i64(x2, 13);
    proof {
        lemma_fx_mul_bound(x2 as int, h1 as int, 161708, 579);
    }
    let h2: i64 = 10923 - fx_i64(x2, h1);
    proof {
        lemma_fx_mul_bound(x2 as int, h2 as int, 161708, 12352);
    }
    let h3: i64 = SCALE - fx_i64(x2, h2);
    proof {
        lemma_fx_mul_bound(y as int, h3 as int, 102945, 96016);
    }
    let r: i64 = fx_i64(y, h3);
    clamp_unit(r)
}

fn reduce_angle(theta: i64) -> (r: i64)
    requires
        -THETA_LIM <= theta <= THETA_LIM,
    ensures
        r == reduce_angle_spec(theta as int),
        -PI_FX <= r <= PI_FX,
{
    let m: i64 = theta % TWO_PI_FX;
    if m > PI_FX {
        m - TWO_PI_FX
    } else if m < -PI_FX {
        m + TWO_PI_FX
    } else {
        m
    }
}

/// The fixed-point cosine.
pub fn cos_fx(theta: i64) -> (r: i64)
    requires
        -THETA_LIM <= theta <= THETA_LIM,
    ensures
        r == cos_fx_spec(theta as int),
        -SCALE <= r <= SCALE,
{
    let t: i64 = reduce_angle(theta);
    let y: i64 = if t < 0 { -t } else { t };
    if y <= HALF_PI_FX {
        cos_kernel(y)
    } else {
        -cos_kernel(PI_FX - y)
    }
}

/// The fixed-point sine.
pub fn sin_fx(theta: i64) -> (r: i64)
    requires
        -THETA_LIM <= theta <= THETA_LIM,
    ensures
        r == sin_fx_spec(theta as int),
        -SCALE <= r <= SCALE,
{
    let t: i64 = reduce_angle(theta);
    let y: i64 = if t < 0 { -t } else { t };
    let s: i64 = if y <= HALF_PI_FX {
        sin_kernel(y)
    } else {
        sin_kernel(PI_FX - y)
    };
    if t < 0 {
        -s
    } else {
        s
    }
}

/// A cosine/sine pair trimmed so that its squared modulus fits one unit:
/// the polynomial kernels can overshoot the unit circle by a few
/// thousandths, and matrix entries must satisfy the unit bound exactly.
/// A pair already inside the unit disc is returned unchanged; an
/// overshooting pair is trimmed to just inside the circle, never
/// below `SCALE_SQ - 2 * SCALE`.
pub fn unit_pair(c0: i64, s0: i64) -> (r: (i64, i64))
    requires
        -SCALE <= c0 <= SCALE,
        -SCALE <= s0 <= SCALE,
    ensures
        r.0 * r.0 + r.1 * r.1 <= SCALE_SQ,
        c0 * c0 + s0 * s0 <= SCALE_SQ ==> r.0 == c0 && r.1 == s0,
        c0 * c0 + s0 * s0 > SCALE_SQ ==> r.0 * r.0 + r.1 * r.1 > SCALE_SQ - 2 * SCALE,
        0 <= c0 ==> 0 <= r.0 <= c0,
        c0 <= 0 ==> c0 <= r.0 <= 0,
        0 <= s0 ==> 0 <= r.1 <= s0,
        s0 <= 0 ==> s0 <= r.1 <= 0,
{
    let mut c: i64 = c0;
    let mut s: i64 = s0;
    proof {
        assert(c * c + s * s <= 8589934592int) by (nonlinear_arith)
            requires
                -SCALE <= c <= SCALE && -SCALE <= s <= SCALE,
        ;
        assert(c * c >= 0 && s * s >= 0) by (nonlinear_arith);
    }
    while c * c + s * s > SCALE_SQ
        invariant
            0 <= c0 ==> 0 <= c <= c0,
            c0 <= 0 ==> c0 <= c <= 0,
            0 <= s0 ==> 0 <= s <= s0,
            s0 <= 0 ==> s0 <= s <= 0,
            -SCALE <= c <= SCALE,
            -SCALE <= s <= SCALE,
            0 <= c * c,
            0 <= s * s,
            c * c + s * s <= 8589934592int,
            (c == c0 && s == s0) || (c0 * c0 + s0 * s0 > SCALE_SQ && c * c + s * s > SCALE_SQ - 2
                * SCALE),
        decreases c * c + s * s,
    {
        let ghost oc: int = c as int;
        let ghost os: int = s as int;
        let cc: i64 = if c < 0 { -c } else { c };
        let ss: i64 = if s < 0 { -s } else { s };
        if cc >= ss {
            if c > 0 {
                c = c - 1;
            } else {
                c = c + 1;
            }
        } else {
            if s > 0 {
                s = s - 1;
            } else {
                s = s + 1;
            }
        }
        proof {
            assert((c as int) * (c as int) + (s as int) * (s as int) < oc * oc + os * os
                && (c as int) * (c as int) + (s as int) * (s as int) >= oc * oc + os * os - 2
                * SCALE + 1 && 0 <= (c as int) * (c as int) && 0 <= (s as int) * (s as int)
                && (c as int) * (c as int) + (s as int) * (s as int) <= 8589934592int)
                by (nonlinear_arith)
                requires
                    oc * oc + os * os <= 8589934592int,
                    -SCALE <= oc <= SCALE,
                    -SCALE <= os <= SCALE,
                    SCALE == 65536,
                    (c == oc - 1 && oc >= 1 && s == os) || (c == oc + 1 && oc <= -1 && s == os)
                        || (s == os - 1 && os >= 1 && c == oc) || (s == os + 1 && os <= -1 && c
                        == oc),
            ;
        }
    }
    (c, s)
}

/// Integer square root: the greatest `r` with `r*r <= v`.
pub fn isqrt(v: u64) -> (r: u64)
    requires
        v < 4611686018427387904u64,
    ensures
        r * r <= v,
        (r + 1) * (r + 1) > v,
{
    let mut lo: u64 = 0;
    let mut hi: u64 = 2147483648u64;
    proof {
        assert((2147483648u64 as int) * (2147483648u64 as int) > v) by (nonlinear_arith)
            requires
                v < 4611686018427387904u64,
        ;
    }
    while hi - lo > 1
        invariant
            lo < hi <= 2147483648u64,
            lo * lo <= v,
            hi * hi > v,
        decreases hi - lo,
    {
        let mid: u64 = lo + (hi - lo) / 2;
        proof {
            assert(mid * mid <= 2147483648u64 * 2147483648u64) by (nonlinear_arith)
                requires
                    0 <= mid <= 2147483648u64,
            ;
        }
        if mid * mid <= v {
            lo = mid;
        } else {
            hi = mid;
        }
    }
    lo
}

/// Integer part (toward zero) and remainder of a scaled real split at
/// whole units, mirroring the executable `/` and `%`.
pub open spec fn exp_int_part(x: int) -> int {
    if x >= 0 {
        x / (SCALE as int)
    } else {
        -((-x) / (SCALE as int))
    }
}

/// Polynomial kernel for `e^f` with `|f| < SCALE` (one unit):
/// `1 + f + f^2/2 + f^3/6 + f^4/24 + f^5/120 + f^6/720`.
pub open spec fn exp_kernel_spec(f: int) -> int {
    let h1 = 546 + fx_mul(f, 91);
    let h2 = 2731 + fx_mul(f, h1);
    let h3 = 10923 + fx_mul(f, h2);
    let h4 = 32768 + fx_mul(f, h3);
    let h5 = (SCALE as int) + fx_mul(f, h4);
    let r = (SCALE as int) + fx_mul(f, h5);
    if r < 0 {
        0
    } else {
        r
    }
}

/// `e` and `1/e` in the fixed-point encoding.
pub const E_FX: i64 = 178145;

pub const E_INV_FX: i64 = 24109;

/// `e^(k) * m` for a whole number `k` of units, `|k| <= 4`, by repeated
/// fixed-point multiplication.
pub open spec fn exp_whole_spec(k: int, m: int) -> int
    decreases
            (if k >= 0 {
                k
            } else {
                -k
            }),
{
    if k > 0 {
        exp_whole_spec(k - 1, fx_mul(m, E_FX as int))
    } else if k < 0 {
        exp_whole_spec(k + 1, fx_mul(m, E_INV_FX as int))
    } else {
        m
    }
}

/// The real exponential of a scaled real, `|x| <= 4` units.
pub open spec fn exp_fx_spec(x: int) -> int {
    exp_whole_spec(exp_int_part(x), exp_kernel_spec(x - exp_int_part(x) * (SCALE as int)))
}

fn exp_kernel(f: i64) -> (r: i64)
    requires
        -SCALE < f < SCALE,
    ensures
        r == exp_kernel_spec(f as int),
        0 <= r <= 180000,
{
    proof {
        lemma_fx_mul_bound(f as int, 91, SCALE as int, 91);
    }
    let h1: i64 = 546 + fx_i64(f, 91);
    proof {
        lemma_fx_mul_bound(f as int, h1 as int, SCALE as int, 637);
    }
    let h2: i64 = 2731 + fx_i64(f, h1);
    proof {
        lemma_fx_mul_bound(f as int, h2 as int, SCALE as int, 3368);
    }
    let h3: i64 = 10923 + fx_i64(f, h2);
    proof {
        lemma_fx_mul_bound(f as int, h3 as int, SCALE as int, 14291);
    }
    let h4: i64 = 32768 + fx_i64(f, h3);
    proof {
        lemma_fx_mul_bound(f as int, h4 as int, SCALE as int, 47059);
    }
    let h5: i64 = SCALE + fx_i64(f, h4);
    proof {
        lemma_fx_mul_bound(f as int, h5 as int, SCALE as int, 112595);
    }
    let r: i64 = SCALE + fx_i64(f, h5);
    if r < 0 {
        0
    } else {
        r
    }
}

/// The fixed-point real exponential.
pub fn exp_fx(x: i64) -> (r: i64)
    requires
        -EXP_ARG_LIM <= x <= EXP_ARG_LIM,
    ensures
        r == exp_fx_spec(x as int),
        0 <= r <= 16777216,
{
    let k: i64 = x / SCALE;
    let f: i64 = x - k * SCALE;
    let mut m: i64 = exp_kernel(f);
    let mut i: i64 = k;
    proof {
        assert(exp_fx_spec(x as int) == exp_whole_spec(k as int, m as int));
    }
    while i > 0
        invariant
            -4 <= i <= 4,
            0 <= m,
            i == 4 ==> m <= 180000,
            i == 3 ==> m <= 489300,
            i == 2 ==> m <= 1330200,
            i == 1 ==> m <= 3616500,
            m <= 9831000,
            exp_whole_spec(i as int, m as int) == exp_fx_spec(x as int),
        decreases i,
    {
        proof {
            if i == 4 {
                lemma_fx_mul_bound(m as int, E_FX as int, 180000, E_FX as int);
            } else if i == 3 {
                lemma_fx_mul_bound(m as int, E_FX as int, 489300, E_FX as int);
            } else if i == 2 {
                lemma_fx_mul_bound(m as int, E_FX as int, 1330200, E_FX as int);
            } else {
                lemma_fx_mul_bound(m as int, E_FX as int, 3616500, E_FX as int);
            }
            assert(m * E_FX >= 0) by (nonlinear_arith)
                requires
                    m >= 0,
            ;
            crate::complex::lemma_scale_down_shrinks(m * E_FX);
        }
        m = fx_i64(m, E_FX);
        i = i - 1;
    }
    while i < 0
        invariant
            -4 <= i <= 0,
            0 <= m <= 9831000,
            exp_whole_spec(i as int, m as int) == exp_fx_spec(x as int),
        decreases -i,
    {
        proof {
            lemma_fx_mul_bound(m as int, E_INV_FX as int, 9831000, E_INV_FX as int);
            assert(m * E_INV_FX >= 0) by (nonlinear_arith)
                requires
                    m >= 0,
            ;
            crate::complex::lemma_scale_down_shrinks(m * E_INV_FX);
        }
        m = fx_i64(m, E_INV_FX);
        i = i + 1;
    }
    m
}

impl ComplexNumber {
    /// `e^(x + yi) = e^x * (cos y + i sin y)`, in fixed point.
    pub fn exp(&self) -> (r: Self)
        requires
            -EXP_ARG_LIM <= self.real <= EXP_ARG_LIM,
            -THETA_LIM <= self.imaginary <= THETA_LIM,
        ensures
            r.real == fx_mul(exp_fx_spec(self.real as int), cos_fx_spec(self.imaginary as int)),
            r.imaginary == fx_mul(
                exp_fx_spec(self.real as int),
                sin_fx_spec(self.imaginary as int),
            ),
    {
        let e: i64 = exp_fx(self.real);
        let c: i64 = cos_fx(self.imaginary);
        let s: i64 = sin_fx(self.imaginary);
        proof {
            lemma_fx_mul_bound(e as int, c as int, 16777216, SCALE as int);
            lemma_fx_mul_bound(e as int, s as int, 16777216, SCALE as int);
        }
        ComplexNumber { real: fx_i64(e, c), imaginary: fx_i64(e, s) }
    }
}

} // verus!
