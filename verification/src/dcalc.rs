//! Gate and wire delay: the DMP effective-capacitance calculator on a pi model with Elmore wire
//! delays.
//!
//! - The table is called with single precision arguments (input slew, capacitance) and answers in
//!   single precision; the algorithm itself runs in double.
//! - `rd`: two table lookups at `c1 + c2` and 1 fF more, all single precision but the logarithm.
//! - The algorithm: capacitive (`rd < 1e-2`, `rpi < rd * 1e-3`, `c1 = 0`, `c1 < c2 * 1e-3` or
//!   `rpi = 0`), zero-c2 (`c2 < c1 * 1e-3`), else the full pi; a failed pi falls back to
//!   `ceff = c1 + c2`.
//! - `exp2` is `1 + x / 4096` squared twelve times, 0 below -12.
//! - The Newton step solves with a closed-form inverse (cofactors times `1 / det`) and a fixed
//!   summation order for the product; no multiply and add is fused.
//!
//! Logarithms depend on the thresholds alone; the caller hands them in.

use vstd::prelude::*;
use crate::float32::F32;
use crate::float64::F64;
use crate::table::{GateModel, GateModelView};

verus! {

/// 1.0.
pub const ONE: u64 = 0x3ff0_0000_0000_0000;

/// 2.0.
pub const TWO: u64 = 0x4000_0000_0000_0000;

/// 4.0.
pub const FOUR: u64 = 0x4010_0000_0000_0000;

/// 0.5.
pub const HALF: u64 = 0x3fe0_0000_0000_0000;

/// -12.0.
pub const EXP2_FLOOR: u64 = 0xc028_0000_0000_0000;

/// 4096.0.
pub const EXP2_STEPS: u64 = 0x40b0_0000_0000_0000;

/// 1.4.
pub const CEFF_TIME_FACTOR: u64 = 0x3ff6_6666_6666_6666;

/// 100.0.
pub const HUNDRED: u64 = 0x4059_0000_0000_0000;

/// 1e-12.
pub const SINGULAR: u64 = 0x3d71_9799_812d_ea11;

/// 1e-15.
pub const CAP_STEP: u64 = 0x3cd2_03af_9ee7_5616;

/// 1e-2.
pub const RD_LIMIT: u64 = 0x3f84_7ae1_47ae_147b;

/// 1e-3.
pub const NEGLIGIBLE: u64 = 0x3f50_624d_d2f1_a9fc;

/// 0.01.
pub const DRIVER_PARAM_TOL: u64 = 0x3f84_7ae1_47ae_147b;

/// 0.01.
pub const VTH_TIME_TOL: u64 = 0x3f84_7ae1_47ae_147b;

pub const FIND_ROOT_MAX_ITER: i32 = 20;

pub const NEWTON_RAPHSON_MAX_ITER: u32 = 100;

/// A computation the algorithm abandons.
#[derive(Debug, Clone, Copy, PartialEq)]
pub struct DmpError(pub &'static str);

/// The library's thresholds for the output transition, as the calculator reads them.
#[derive(Debug, Clone, Copy, PartialEq)]
pub struct Thresholds {
    pub vth: F32,
    pub vl: F32,
    pub vh: F32,
    pub slew_derate: F32,
}

/// The natural logarithms of a set of thresholds: of `vth`, of `1 - vth` and of
/// `(1 - vl) / (1 - vh)`.
#[derive(Debug, Clone, Copy, PartialEq)]
pub struct ThresholdLogs {
    pub vth: F64,
    pub rest: F64,
    pub slew: F64,
}

impl Thresholds {
    /// The numbers whose natural logarithms make up the [`ThresholdLogs`], in their order.
    pub fn log_arguments(&self) -> (r: (F64, F64, F64))
        ensures
            r.0 == self.vth.widened(),
            r.1 == F64(ONE) - self.vth.widened(),
            r.2 == (F64(ONE) - self.vl.widened()) / (F64(ONE) - self.vh.widened()),
    {
        (
            self.vth.to_f64(),
            F64(ONE) - self.vth.to_f64(),
            (F64(ONE) - self.vl.to_f64()) / (F64(ONE) - self.vh.to_f64()),
        )
    }
}

/// `y` squared `n` times over.
pub open spec fn squared(y: F64, n: nat) -> F64
    decreases n,
{
    if n == 0 {
        y
    } else {
        squared(y * y, (n - 1) as nat)
    }
}

pub open spec fn fast_exp(x: F64) -> F64 {
    if x.is_lt(F64(EXP2_FLOOR)) {
        F64(0)
    } else {
        squared(F64(ONE) + x / F64(EXP2_STEPS), 12)
    }
}

/// A fast exponential: `1 + x / 4096` squared twelve times, 0 below -12.
pub fn exp2(x: F64) -> (r: F64)
    ensures
        r == fast_exp(x),
{
    if x.lt(F64(EXP2_FLOOR)) {
        return F64(0);
    }
    let mut y: F64 = F64(ONE) + x / F64(EXP2_STEPS);
    let mut n: u32 = 12;
    while n > 0
        invariant
            n <= 12,
            squared(y, n as nat) == squared(F64(ONE) + x / F64(EXP2_STEPS), 12),
        decreases n,
    {
        y = y * y;
        n = n - 1;
    }
    y
}

/// Every result of `f` is the value of `g`.
pub open spec fn computes<F: Fn(F64) -> (F64, F64)>(f: F, g: spec_fn(F64) -> (F64, F64)) -> bool {
    forall|x: F64, y: (F64, F64)| call_ensures(f, (x,), y) ==> y == g(x)
}

/// The root search from the bracket `(x1, x2)`, the guess `root` and the value and slope there,
/// `n` steps at most: a Newton step where it stays inside the bracket and converges, else a
/// bisection.
pub open spec fn root_search(
    g: spec_fn(F64) -> (F64, F64),
    x1: F64,
    x2: F64,
    root: F64,
    dx_prev: F64,
    dx: F64,
    v: (F64, F64),
    x_tol: F64,
    n: nat,
) -> (F64, bool)
    decreases n,
{
    if n == 0 {
        (root, true)
    } else {
        let (y, dy) = v;
        let bisect = F64(0).is_lt(((root - x2) * dy - y) * ((root - x1) * dy - y)) || (dx_prev
            * dy).abs_value().is_lt((F64(TWO) * y).abs_value());
        let step = if bisect {
            (x2 - x1) * F64(HALF)
        } else {
            y / dy
        };
        let next = if bisect {
            x1 + step
        } else {
            root - step
        };
        if step.abs_value().is_le(x_tol * next.abs_value()) {
            (next, false)
        } else {
            let w = g(next);
            if w.0.is_lt(F64(0)) {
                root_search(g, next, x2, next, dx, step, w, x_tol, (n - 1) as nat)
            } else {
                root_search(g, x1, next, next, dx, step, w, x_tol, (n - 1) as nat)
            }
        }
    }
}

/// The root of `g` in `(x1, x2)` and whether the search failed.
pub open spec fn root_of(
    g: spec_fn(F64) -> (F64, F64),
    x1: F64,
    x2: F64,
    x_tol: F64,
    max_iter: int,
) -> (F64, bool) {
    let (y1, y2) = (g(x1).0, g(x2).0);
    let zero = F64(0);
    if (zero.is_lt(y1) && zero.is_lt(y2)) || (y1.is_lt(zero) && y2.is_lt(zero)) {
        (zero, true)
    } else if y1.is_eq(zero) {
        (x1, false)
    } else if y2.is_eq(zero) {
        (x2, false)
    } else {
        let (lo, hi) = if zero.is_lt(y1) {
            (x2, x1)
        } else {
            (x1, x2)
        };
        let root = (lo + hi) * F64(HALF);
        let width = (hi - lo).abs_value();
        root_search(
            g,
            lo,
            hi,
            root,
            width,
            width,
            g(root),
            x_tol,
            if max_iter > 0 {
                max_iter as nat
            } else {
                0
            },
        )
    }
}

/// A root by Newton-Raphson safeguarded by bisection: `(root, failed)`.
pub fn find_root<F: Fn(F64) -> (F64, F64)>(func: &F, x1: F64, x2: F64, x_tol: F64, max_iter: i32) -> (r: (
    F64,
    bool,
))
    requires
        forall|x: F64| #[trigger] call_requires(*func, (x,)),
    ensures
        forall|g: spec_fn(F64) -> (F64, F64)| #[trigger]
            computes(*func, g) ==> r == root_of(g, x1, x2, x_tol, max_iter as int),
{
    let zero: F64 = F64(0);
    let y1: F64 = func(x1).0;
    let y2: F64 = func(x2).0;
    if (y1.gt(zero) && y2.gt(zero)) || (y1.lt(zero) && y2.lt(zero)) {
        return (zero, true);
    }
    if y1 == zero {
        return (x1, false);
    }
    if y2 == zero {
        return (x2, false);
    }
    let mut lo: F64 = x1;
    let mut hi: F64 = x2;
    if y1.gt(zero) {
        lo = x2;
        hi = x1;
    }
    let mut root: F64 = (lo + hi) * F64(HALF);
    let mut dx_prev: F64 = (hi - lo).abs();
    let mut dx: F64 = dx_prev;
    let mut v: (F64, F64) = func(root);
    let mut n: i32 = if max_iter > 0 {
        max_iter
    } else {
        0
    };
    while n > 0
        invariant
            n >= 0,
            zero == F64(0),
            forall|x: F64| #[trigger] call_requires(*func, (x,)),
            forall|g: spec_fn(F64) -> (F64, F64)| #[trigger]
                computes(*func, g) ==> root_search(g, lo, hi, root, dx_prev, dx, v, x_tol, n as nat) == root_of(
                    g,
                    x1,
                    x2,
                    x_tol,
                    max_iter as int,
                ),
        decreases n,
    {
        let (y, dy): (F64, F64) = v;
        let bisect: bool = (((root - hi) * dy - y) * ((root - lo) * dy - y)).gt(zero) || (F64(TWO)
            * y).abs().gt((dx_prev * dy).abs());
        dx_prev = dx;
        if bisect {
            dx = (hi - lo) * F64(HALF);
            root = lo + dx;
        } else {
            dx = y / dy;
            root = root - dx;
        }
        if dx.abs().le(x_tol * root.abs()) {
            return (root, false);
        }
        v = func(root);
        if v.0.lt(zero) {
            lo = root;
        } else {
            hi = root;
        }
        n = n - 1;
    }
    (root, true)
}

pub type M3 = [[F64; 3]; 3];

/// A bracket that does not straddle a root fails; one that ends on a root finds it.
pub proof fn lemma_bracket(g: spec_fn(F64) -> (F64, F64), x1: F64, x2: F64, x_tol: F64, max_iter: int)
    ensures
        ({
            let (y1, y2) = (g(x1).0, g(x2).0);
            let r = root_of(g, x1, x2, x_tol, max_iter);
            &&& (F64(0).is_lt(y1) && F64(0).is_lt(y2)) || (y1.is_lt(F64(0)) && y2.is_lt(F64(0))) ==> r.1
            &&& y1.is_eq(F64(0)) ==> r == (x1, false)
            &&& y2.is_eq(F64(0)) && !y1.is_eq(F64(0)) ==> r == (x2, false)
        }),
{
    reveal(F64::is_lt);
    reveal(F64::is_eq);
}

/// A matrix's entries.
pub open spec fn rows(m: M3) -> Seq<Seq<F64>> {
    seq![m[0]@, m[1]@, m[2]@]
}

pub open spec fn cofactor_of(m: Seq<Seq<F64>>, i: int, j: int) -> F64 {
    let (i1, i2, j1, j2) = ((i + 1) % 3, (i + 2) % 3, (j + 1) % 3, (j + 2) % 3);
    m[i1][j1] * m[i2][j2] - m[i1][j2] * m[i2][j1]
}

fn cofactor(m: &M3, i: usize, j: usize) -> (r: F64)
    requires
        i < 3,
        j < 3,
    ensures
        r == cofactor_of(rows(*m), i as int, j as int),
{
    let (i1, i2, j1, j2): (usize, usize, usize, usize) = ((i + 1) % 3, (i + 2) % 3, (j + 1) % 3, (j + 2)
        % 3);
    m[i1][j1] * m[i2][j2] - m[i1][j2] * m[i2][j1]
}

/// The term of the determinant that starts in column `a` of the first row.
pub open spec fn minor_term(m: Seq<Seq<F64>>, a: int, b: int, c: int) -> F64 {
    m[0][a] * (m[1][b] * m[2][c] - m[1][c] * m[2][b])
}

pub open spec fn determinant(m: Seq<Seq<F64>>) -> F64 {
    minor_term(m, 0, 1, 2) - minor_term(m, 1, 0, 2) + minor_term(m, 2, 0, 1)
}

/// The 3x3 determinant, by first-row cofactor expansion.
fn det3(m: &M3) -> (r: F64)
    ensures
        r == determinant(rows(*m)),
{
    m[0][0] * (m[1][1] * m[2][2] - m[1][2] * m[2][1]) - m[0][1] * (m[1][0] * m[2][2] - m[1][2] * m[2][0])
        + m[0][2] * (m[1][0] * m[2][1] - m[1][1] * m[2][0])
}

/// A 3x3 matrix times a vector: rows 0 and 1 summed from the left, row 2 from the right.
pub open spec fn product(m: Seq<Seq<F64>>, b: Seq<F64>) -> Seq<F64> {
    seq![
        m[0][0] * b[0] + m[0][1] * b[1] + m[0][2] * b[2],
        m[1][0] * b[0] + m[1][1] * b[1] + m[1][2] * b[2],
        m[2][0] * b[0] + (m[2][1] * b[1] + m[2][2] * b[2]),
    ]
}

/// A 3x3 matrix times a vector, in a fixed summation order: rows 0 and 1 accumulate column by
/// column, `(a0 b0 + a1 b1) + a2 b2`, and row 2 sums its last two terms first,
/// `a0 b0 + (a1 b1 + a2 b2)`. The two orders differ in the last bit, and a Newton solve can land
/// on either side of it.
pub fn lazy_product3(m: &M3, b: [F64; 3]) -> (r: [F64; 3])
    ensures
        r@ == product(rows(*m), b@),
{
    [
        m[0][0] * b[0] + m[0][1] * b[1] + m[0][2] * b[2],
        m[1][0] * b[0] + m[1][1] * b[1] + m[1][2] * b[2],
        m[2][0] * b[0] + (m[2][1] * b[1] + m[2][2] * b[2]),
    ]
}

/// The reciprocal of the determinant, by first-column cofactors.
pub open spec fn inverse_determinant(m: Seq<Seq<F64>>) -> F64 {
    F64(ONE) / (cofactor_of(m, 0, 0) * m[0][0] + cofactor_of(m, 1, 0) * m[1][0] + cofactor_of(m, 2, 0)
        * m[2][0])
}

/// The inverse: the transposed cofactors times the reciprocal of the determinant.
pub open spec fn inverse(m: Seq<Seq<F64>>) -> Seq<Seq<F64>> {
    let d = inverse_determinant(m);
    seq![
        seq![cofactor_of(m, 0, 0) * d, cofactor_of(m, 1, 0) * d, cofactor_of(m, 2, 0) * d],
        seq![cofactor_of(m, 0, 1) * d, cofactor_of(m, 1, 1) * d, cofactor_of(m, 2, 1) * d],
        seq![cofactor_of(m, 0, 2) * d, cofactor_of(m, 1, 2) * d, cofactor_of(m, 2, 2) * d],
    ]
}

/// The Newton step of order 3.
pub open spec fn step3(m: Seq<Seq<F64>>, f: Seq<F64>) -> Seq<F64> {
    product(inverse(m), seq![-f[0], -f[1], -f[2]])
}

/// The inverse of a 3x3 Jacobian times the negated residuals: the closed-form inverse (cofactors
/// times `1 / det`), then the product.
pub fn solve3(m: &M3, f: [F64; 3]) -> (r: [F64; 3])
    ensures
        r@ == step3(rows(*m), f@),
{
    let c0: [F64; 3] = [cofactor(m, 0, 0), cofactor(m, 1, 0), cofactor(m, 2, 0)];
    let det: F64 = c0[0] * m[0][0] + c0[1] * m[1][0] + c0[2] * m[2][0];
    let invdet: F64 = F64(ONE) / det;
    let inv: M3 = [
        [c0[0] * invdet, c0[1] * invdet, c0[2] * invdet],
        [cofactor(m, 0, 1) * invdet, cofactor(m, 1, 1) * invdet, cofactor(m, 2, 1) * invdet],
        [cofactor(m, 0, 2) * invdet, cofactor(m, 1, 2) * invdet, cofactor(m, 2, 2) * invdet],
    ];
    let nf: [F64; 3] = [f[0].negate(), f[1].negate(), f[2].negate()];
    let ghost i = inverse(rows(*m));
    assert(rows(inv)[0] =~= i[0]);
    assert(rows(inv)[1] =~= i[1]);
    assert(rows(inv)[2] =~= i[2]);
    assert(rows(inv) =~= i);
    assert(nf@ =~= seq![-f[0], -f[1], -f[2]]);
    lazy_product3(&inv, nf)
}

pub open spec fn determinant2(m: Seq<Seq<F64>>) -> F64 {
    m[0][0] * m[1][1] - m[1][0] * m[0][1]
}

/// The Newton step of order 2; the third parameter stays.
pub open spec fn step2(m: Seq<Seq<F64>>, f: Seq<F64>) -> Seq<F64> {
    let d = F64(ONE) / determinant2(m);
    seq![
        (m[1][1] * d) * -f[0] + (-m[0][1] * d) * -f[1],
        (-m[1][0] * d) * -f[0] + (m[0][0] * d) * -f[1],
        F64(0),
    ]
}

/// The same for the top-left 2x2 of the Jacobian, by its closed-form inverse.
pub fn solve2(m: &M3, f: [F64; 3]) -> (r: [F64; 3])
    ensures
        r@ == step2(rows(*m), f@),
{
    let det: F64 = m[0][0] * m[1][1] - m[1][0] * m[0][1];
    let invdet: F64 = F64(ONE) / det;
    let nf0: F64 = f[0].negate();
    let nf1: F64 = f[1].negate();
    [
        (m[1][1] * invdet) * nf0 + (m[0][1].negate() * invdet) * nf1,
        (m[1][0].negate() * invdet) * nf0 + (m[0][0] * invdet) * nf1,
        F64(0),
    ]
}


/// Which algorithm a gate arc uses.
#[derive(Debug, Clone, Copy, PartialEq, Eq, Structural)]
pub enum Alg {
    Cap,
    Pi,
    ZeroC2,
}

/// The DMP state of one gate arc, of one of three kinds, which its loads read.
#[derive(Debug, Clone, Copy)]
pub struct Dmp<'a> {
    pub alg: Alg,
    pub model: &'a GateModel,
    pub rd: F64,
    pub in_slew: F64,
    pub c2: F64,
    pub rpi: F64,
    pub c1: F64,
    pub vth: F64,
    pub vl: F64,
    pub vh: F64,
    pub slew_derate: F64,
    /// The logarithm of `1 - vth`.
    pub ln_rest: F64,
    pub t0: F64,
    pub dt: F64,
    pub ceff: F64,
    pub drvr_slew: F64,
    pub vo_delay: F64,
    pub driver_valid: bool,
    pub elmore: F64,
    pub p3: F64,
    // Pi and zero-c2 poles, zeros and coefficients.
    pub p1: F64,
    pub p2: F64,
    pub z1: F64,
    pub k0: F64,
    pub k1: F64,
    pub k2: F64,
    pub k3: F64,
    pub k4: F64,
    pub a: F64,
    pub b: F64,
    pub d: F64,
}

/// What the state of a gate arc holds.
#[verifier::ext_equal]
pub struct DmpView {
    pub alg: Alg,
    pub model: GateModelView,
    pub rd: F64,
    pub in_slew: F64,
    pub c2: F64,
    pub rpi: F64,
    pub c1: F64,
    pub vth: F64,
    pub vl: F64,
    pub vh: F64,
    pub slew_derate: F64,
    pub ln_rest: F64,
    pub t0: F64,
    pub dt: F64,
    pub ceff: F64,
    pub drvr_slew: F64,
    pub vo_delay: F64,
    pub driver_valid: bool,
    pub elmore: F64,
    pub p3: F64,
    pub p1: F64,
    pub p2: F64,
    pub z1: F64,
    pub k0: F64,
    pub k1: F64,
    pub k2: F64,
    pub k3: F64,
    pub k4: F64,
    pub a: F64,
    pub b: F64,
    pub d: F64,
}

impl<'a> View for Dmp<'a> {
    type V = DmpView;

    open spec fn view(&self) -> DmpView {
        DmpView {
            alg: self.alg,
            model: self.model@,
            rd: self.rd,
            in_slew: self.in_slew,
            c2: self.c2,
            rpi: self.rpi,
            c1: self.c1,
            vth: self.vth,
            vl: self.vl,
            vh: self.vh,
            slew_derate: self.slew_derate,
            ln_rest: self.ln_rest,
            t0: self.t0,
            dt: self.dt,
            ceff: self.ceff,
            drvr_slew: self.drvr_slew,
            vo_delay: self.vo_delay,
            driver_valid: self.driver_valid,
            elmore: self.elmore,
            p3: self.p3,
            p1: self.p1,
            p2: self.p2,
            z1: self.z1,
            k0: self.k0,
            k1: self.k1,
            k2: self.k2,
            k3: self.k3,
            k4: self.k4,
            a: self.a,
            b: self.b,
            d: self.d,
        }
    }
}

/// The three unknowns of the driver waveform: its start, its ramp time, the effective capacitance.
#[derive(Debug, Clone, Copy)]
pub struct Params {
    pub t0: F64,
    pub dt: F64,
    pub ceff: F64,
}

/// One evaluation of the driver equations: the parameters it was made at, the residuals of the
/// lower threshold, the delay threshold and the charge, and their derivatives by the parameters.
#[derive(Debug, Clone, Copy)]
pub struct Equations {
    pub at: Params,
    pub y20: F64,
    pub y50: F64,
    pub ipi: F64,
    pub y20_by: Params,
    pub y50_by: Params,
    pub ipi_by: Params,
}

impl Params {
    pub open spec fn row(self) -> Seq<F64> {
        seq![self.t0, self.dt, self.ceff]
    }

    fn array(&self) -> (r: [F64; 3])
        ensures
            r@ == self.row(),
    {
        [self.t0, self.dt, self.ceff]
    }
}

impl Equations {
    pub open spec fn residuals(self) -> Seq<F64> {
        seq![self.y20, self.y50, self.ipi]
    }

    pub open spec fn jacobian(self) -> Seq<Seq<F64>> {
        seq![self.y20_by.row(), self.y50_by.row(), self.ipi_by.row()]
    }
}

pub open spec fn no_params() -> Params {
    Params { t0: F64(0), dt: F64(0), ceff: F64(0) }
}

/// The driver resistance the table implies around `c1 + c2`.
pub open spec fn model_resistance(model: GateModelView, ln_vth: F64, in_slew: F64, c2: F64, c1: F64) -> Option<
    F64,
> {
    let cap1 = (c1 + c2).narrowed();
    let cap2 = (cap1.widened() + F64(CAP_STEP)).narrowed();
    match (model.gate_delay(in_slew.narrowed(), cap1), model.gate_delay(in_slew.narrowed(), cap2)) {
        (Some((d1, _)), Some((d2, _))) => Some(
            (-ln_vth * (d1 - d2).abs_value().widened() / (cap2 - cap1).widened()).narrowed().widened(),
        ),
        _ => None,
    }
}

fn gate_model_rd(model: &GateModel, ln_vth: F64, in_slew: F64, c2: F64, c1: F64) -> (r: Option<F64>)
    ensures
        r == model_resistance(model@, ln_vth, in_slew, c2, c1),
{
    let cap1: F32 = (c1 + c2).to_f32();
    let cap2: F32 = (cap1.to_f64() + F64(CAP_STEP)).to_f32();
    let first: (F32, F32) = model.gate_delay(in_slew.to_f32(), cap1)?;
    let second: (F32, F32) = model.gate_delay(in_slew.to_f32(), cap2)?;
    let rd: F32 = (ln_vth.negate() * (first.0 - second.0).abs().to_f64() / (cap2 - cap1).to_f64()).to_f32();
    Some(rd.to_f64())
}

/// The algorithm that fits a driver and its pi model.
pub open spec fn choose_algorithm(rd: F64, c2: F64, rpi: F64, c1: F64) -> Alg {
    let small = F64(NEGLIGIBLE);
    if rd.is_lt(F64(RD_LIMIT)) || rpi.is_lt(rd * small) || c1.is_eq(F64(0)) || c1.is_lt(c2 * small)
        || rpi.is_eq(F64(0)) {
        Alg::Cap
    } else if c2.is_lt(c1 * small) {
        Alg::ZeroC2
    } else {
        Alg::Pi
    }
}

/// The state before any kind is set up.
pub open spec fn bare_state(
    alg: Alg,
    model: GateModelView,
    th: Thresholds,
    ln_rest: F64,
    rd: F64,
    in_slew: F64,
    c2: F64,
    rpi: F64,
    c1: F64,
) -> DmpView {
    let zero = F64(0);
    DmpView {
        alg,
        model,
        rd,
        in_slew,
        c2,
        rpi,
        c1,
        vth: th.vth.widened(),
        vl: th.vl.widened(),
        vh: th.vh.widened(),
        slew_derate: th.slew_derate.widened(),
        ln_rest,
        t0: zero,
        dt: zero,
        ceff: zero,
        drvr_slew: zero,
        vo_delay: zero,
        driver_valid: false,
        elmore: zero,
        p3: zero,
        p1: zero,
        p2: zero,
        z1: zero,
        k0: zero,
        k1: zero,
        k2: zero,
        k3: zero,
        k4: zero,
        a: zero,
        b: zero,
        d: zero,
    }
}

/// The poles, zeros and coefficients of the full pi.
pub open spec fn with_pi(s: DmpView) -> DmpView {
    let one = F64(ONE);
    let two = F64(TWO);
    let z1 = one / (s.rpi * s.c1);
    let k0 = one / (s.rd * s.c2);
    let a = s.rpi * s.rd * s.c1 * s.c2;
    let b = s.rd * (s.c1 + s.c2) + s.rpi * s.c1;
    let root = (b * b - F64(FOUR) * a).square_root();
    let p1 = (b + root) / (two * a);
    let p2 = (b - root) / (two * a);
    let p1p2 = p1 * p2;
    let k2 = z1 / p1p2;
    let k1 = (one - k2 * (p1 + p2)) / p1p2;
    let k4 = (k1 * p1 + k2) / (p2 - p1);
    let z = (s.c1 + s.c2) / (s.rpi * s.c1 * s.c2);
    DmpView {
        z1,
        k0,
        p1,
        p2,
        k2,
        k1,
        k4,
        k3: -k1 - k4,
        a: z / p1p2,
        b: (z - p1) / (p1 * (p1 - p2)),
        d: (z - p2) / (p2 * (p2 - p1)),
        ..s
    }
}

/// The pole, zero and coefficients with no near capacitance.
pub open spec fn with_zero_c2(s: DmpView) -> DmpView {
    let one = F64(ONE);
    let z1 = one / (s.rpi * s.c1);
    let p1 = one / (s.c1 * (s.rd + s.rpi));
    let k0 = p1 / z1;
    let k1 = (p1 - z1) / (p1 * p1);
    DmpView { ceff: s.c1, z1, p1, k0, k2: one / k0, k1, k3: -k1, ..s }
}

/// The state of a gate arc before its delay is computed.
pub open spec fn initial_state(
    model: GateModelView,
    th: Thresholds,
    logs: ThresholdLogs,
    in_slew: F32,
    c2: F32,
    rpi: F32,
    c1: F32,
) -> Option<DmpView> {
    let (i, c2, rpi, c1) = (in_slew.widened(), c2.widened(), rpi.widened(), c1.widened());
    match model_resistance(model, logs.vth, i, c2, c1) {
        None => None,
        Some(rd) => {
            let alg = choose_algorithm(rd, c2, rpi, c1);
            let s = bare_state(alg, model, th, logs.rest, rd, i, c2, rpi, c1);
            Some(
                match alg {
                    Alg::Cap => DmpView { ceff: c1 + c2, ..s },
                    Alg::Pi => with_pi(s),
                    Alg::ZeroC2 => with_zero_c2(s),
                },
            )
        },
    }
}

impl<'a> Dmp<'a> {
    /// Chooses the algorithm, then initialises the chosen kind; none where a table lookup reads
    /// outside its table.
    pub fn new(
        model: &'a GateModel,
        th: &Thresholds,
        logs: &ThresholdLogs,
        in_slew: F32,
        c2: F32,
        rpi: F32,
        c1: F32,
    ) -> (r: Option<Dmp<'a>>)
        ensures
            match r {
                Some(d) => Some(d@) == initial_state(model@, *th, *logs, in_slew, c2, rpi, c1),
                None => initial_state(model@, *th, *logs, in_slew, c2, rpi, c1) is None,
            },
    {
        let zero: F64 = F64(0);
        let one: F64 = F64(ONE);
        let two: F64 = F64(TWO);
        let small: F64 = F64(NEGLIGIBLE);
        let (in_slew, c2, rpi, c1): (F64, F64, F64, F64) = (
            in_slew.to_f64(),
            c2.to_f64(),
            rpi.to_f64(),
            c1.to_f64(),
        );
        let rd: F64 = gate_model_rd(model, logs.vth, in_slew, c2, c1)?;
        let alg: Alg = if rd.lt(F64(RD_LIMIT)) || rpi.lt(rd * small) || c1 == zero || c1.lt(c2 * small)
            || rpi == zero {
            Alg::Cap
        } else if c2.lt(c1 * small) {
            Alg::ZeroC2
        } else {
            Alg::Pi
        };
        let mut d: Dmp<'a> = Dmp {
            alg,
            model,
            rd,
            in_slew,
            c2,
            rpi,
            c1,
            vth: th.vth.to_f64(),
            vl: th.vl.to_f64(),
            vh: th.vh.to_f64(),
            slew_derate: th.slew_derate.to_f64(),
            ln_rest: logs.rest,
            t0: zero,
            dt: zero,
            ceff: zero,
            drvr_slew: zero,
            vo_delay: zero,
            driver_valid: false,
            elmore: zero,
            p3: zero,
            p1: zero,
            p2: zero,
            z1: zero,
            k0: zero,
            k1: zero,
            k2: zero,
            k3: zero,
            k4: zero,
            a: zero,
            b: zero,
            d: zero,
        };
        match alg {
            Alg::Cap => {
                d.ceff = c1 + c2;
            },
            Alg::Pi => {
                d.z1 = one / (d.rpi * d.c1);
                d.k0 = one / (d.rd * d.c2);
                let a: F64 = d.rpi * d.rd * d.c1 * d.c2;
                let b: F64 = d.rd * (d.c1 + d.c2) + d.rpi * d.c1;
                let root: F64 = (b * b - F64(FOUR) * a).sqrt();
                d.p1 = (b + root) / (two * a);
                d.p2 = (b - root) / (two * a);
                let p1p2: F64 = d.p1 * d.p2;
                d.k2 = d.z1 / p1p2;
                d.k1 = (one - d.k2 * (d.p1 + d.p2)) / p1p2;
                d.k4 = (d.k1 * d.p1 + d.k2) / (d.p2 - d.p1);
                d.k3 = d.k1.negate() - d.k4;
                let z: F64 = (d.c1 + d.c2) / (d.rpi * d.c1 * d.c2);
                d.a = z / p1p2;
                d.b = (z - d.p1) / (d.p1 * (d.p1 - d.p2));
                d.d = (z - d.p2) / (d.p2 * (d.p2 - d.p1));
            },
            Alg::ZeroC2 => {
                d.ceff = c1;
                d.z1 = one / (d.rpi * d.c1);
                d.p1 = one / (d.c1 * (d.rd + d.rpi));
                d.k0 = d.p1 / d.z1;
                d.k2 = one / d.k0;
                d.k1 = (d.p1 - d.z1) / (d.p1 * d.p1);
                d.k3 = d.k1.negate();
            },
        }
        Some(d)
    }

    /// Which algorithm the arc uses.
    pub fn algorithm(&self) -> (r: Alg)
        ensures
            r == self@.alg,
    {
        self.alg
    }

    pub fn driver_valid(&self) -> (r: bool)
        ensures
            r == self@.driver_valid,
    {
        self.driver_valid
    }

    /// The solver state, for traces: `(rd, t0, dt, ceff)`.
    pub fn state(&self) -> (r: (F64, F64, F64, F64))
        ensures
            r == (self@.rd, self@.t0, self@.dt, self@.ceff),
    {
        (self.rd, self.t0, self.dt, self.ceff)
    }
}


/// What a step of the solver comes to: none where a table lookup reads outside its table, else a
/// value or the reason why the step was abandoned.
pub type Attempt<T> = Option<Result<T, Seq<char>>>;

impl DmpView {
    /// How many parameters the Newton iteration solves for.
    pub open spec fn order(self) -> int {
        match self.alg {
            Alg::Cap => 1,
            Alg::ZeroC2 => 2,
            Alg::Pi => 3,
        }
    }

    /// The table at `ceff`, both arguments narrowed.
    pub open spec fn cap_delay_slew(self, ceff: F64) -> Option<(F64, F64)> {
        match self.model.gate_delay(self.in_slew.narrowed(), ceff.narrowed()) {
            Some((d, s)) => Some((d.widened(), s.widened())),
            None => None,
        }
    }

    /// The time of the delay threshold, that of the lower threshold and the measured slew, at
    /// `ceff`.
    pub open spec fn gate_delays(self, ceff: F64) -> Option<(F64, F64, F64)> {
        match self.cap_delay_slew(ceff) {
            Some((t_vth, table_slew)) => {
                let slew = table_slew * self.slew_derate;
                Some((t_vth, t_vth - slew * (self.vth - self.vl) / (self.vh - self.vl), slew))
            },
            None => None,
        }
    }

    /// The response of the driver to a unit ramp, its time derivative and that by the load.
    pub open spec fn y0(self, t: F64, cl: F64) -> F64 {
        t - self.rd * cl * (F64(ONE) - fast_exp(-t / (self.rd * cl)))
    }

    pub open spec fn y0dt(self, t: F64, cl: F64) -> F64 {
        F64(ONE) - fast_exp(-t / (self.rd * cl))
    }

    pub open spec fn y0dcl(self, t: F64, cl: F64) -> F64 {
        self.rd * ((F64(ONE) + t / (self.rd * cl)) * fast_exp(-t / (self.rd * cl)) - F64(ONE))
    }

    /// The response to a ramp of time `dt` from `t0`.
    pub open spec fn y(self, t: F64, t0: F64, dt: F64, cl: F64) -> F64 {
        let t1 = t - t0;
        if t1.is_le(F64(0)) {
            F64(0)
        } else if t1.is_le(dt) {
            self.y0(t1, cl) / dt
        } else {
            (self.y0(t1, cl) - self.y0(t1 - dt, cl)) / dt
        }
    }

    /// The derivatives of that response by the three parameters.
    pub open spec fn dy(self, t: F64, t0: F64, dt: F64, cl: F64) -> Params {
        let t1 = t - t0;
        if t1.is_le(F64(0)) {
            no_params()
        } else if t1.is_le(dt) {
            Params {
                t0: -self.y0dt(t1, cl) / dt,
                dt: -self.y0(t1, cl) / (dt * dt),
                ceff: self.y0dcl(t1, cl) / dt,
            }
        } else {
            Params {
                t0: -(self.y0dt(t1, cl) - self.y0dt(t1 - dt, cl)) / dt,
                dt: -(self.y0(t1, cl) + self.y0(t1 - dt, cl)) / (dt * dt) + self.y0dt(t1 - dt, cl) / dt,
                ceff: (self.y0dcl(t1, cl) - self.y0dcl(t1 - dt, cl)) / dt,
            }
        }
    }

    /// The mean current into the pi less that into `ceff`, over `ceff_time`.
    pub open spec fn ipi_iceff(self, dt: F64, ceff_time: F64, ceff: F64) -> F64 {
        let one = F64(ONE);
        let exp_p1_dt = fast_exp(-self.p1 * ceff_time);
        let exp_p2_dt = fast_exp(-self.p2 * ceff_time);
        let exp_dt_rd_ceff = fast_exp(-ceff_time / (self.rd * ceff));
        let ipi = (self.a * ceff_time + (self.b / self.p1) * (one - exp_p1_dt) + (self.d / self.p2) * (one
            - exp_p2_dt)) / (self.rd * ceff_time * dt);
        let iceff = (self.rd * ceff * ceff_time - (self.rd * ceff) * (self.rd * ceff) * (one
            - exp_dt_rd_ceff)) / (self.rd * ceff_time * dt);
        ipi - iceff
    }

    /// The equations of the full pi.
    pub open spec fn pi_equations(self, x: Params) -> Attempt<Equations> {
        let one = F64(ONE);
        let two = F64(TWO);
        let (t0, dt, ceff) = (x.t0, x.dt, x.ceff);
        if ceff.is_lt(F64(0)) {
            Some(Err("eqn eval failed: ceff < 0"@))
        } else if (self.c1 + self.c2).is_lt(ceff) {
            Some(Err("eqn eval failed: ceff > c2 + c1"@))
        } else if dt.is_le(F64(0)) {
            Some(Err("eqn eval failed: dt < 0"@))
        } else {
            match self.gate_delays(ceff) {
                None => None,
                Some((t_vth, t_vl, slew)) => if slew.is_eq(F64(0)) {
                    Some(Err("eqn eval failed: slew = 0"@))
                } else {
                    let ceff_time = (slew / (self.vh - self.vl)).smaller(F64(CEFF_TIME_FACTOR) * dt);
                    let exp_p1_dt = fast_exp(-self.p1 * dt);
                    let exp_p2_dt = fast_exp(-self.p2 * dt);
                    let exp_dt_rd_ceff = fast_exp(-dt / (self.rd * ceff));
                    let b_div_p1 = self.b / self.p1;
                    let d_div_p2 = self.d / self.p2;
                    let rd_ceff = self.rd * ceff;
                    let term_a = -self.a * dt;
                    let term_b = self.b * dt * exp_p1_dt - two * b_div_p1 * (one - exp_p1_dt);
                    let term_d = self.d * dt * exp_p2_dt - two * d_div_p2 * (one - exp_p2_dt);
                    let term_rd = rd_ceff * (dt + dt * exp_dt_rd_ceff - two * rd_ceff * (one
                        - exp_dt_rd_ceff));
                    let two_rd_ceff = two * rd_ceff;
                    Some(
                        Ok(
                            Equations {
                                at: x,
                                y20: self.y(t_vl, t0, dt, ceff) - self.vl,
                                y50: self.y(t_vth, t0, dt, ceff) - self.vth,
                                ipi: self.ipi_iceff(dt, ceff_time, ceff),
                                y20_by: self.dy(t_vl, t0, dt, ceff),
                                y50_by: self.dy(t_vth, t0, dt, ceff),
                                ipi_by: Params {
                                    t0: F64(0),
                                    dt: (term_a + term_b + term_d + term_rd) / (self.rd * dt * dt * dt),
                                    ceff: (two_rd_ceff - dt - (two_rd_ceff + dt) * exp_dt_rd_ceff) / (dt
                                        * dt),
                                },
                            },
                        ),
                    )
                },
            }
        }
    }

    /// The equations with no near capacitance; a ramp time that is not positive restarts small.
    pub open spec fn zero_c2_equations(self, x: Params) -> Attempt<Equations> {
        match self.gate_delays(self.ceff) {
            None => None,
            Some((t_vth, t_vl, _)) => {
                let dt = if x.dt.is_le(F64(0)) {
                    (t_vl - t_vth) / F64(HUNDRED)
                } else {
                    x.dt
                };
                Some(
                    Ok(
                        Equations {
                            at: Params { dt, ..x },
                            y20: self.y(t_vl, x.t0, dt, self.ceff) - self.vl,
                            y50: self.y(t_vth, x.t0, dt, self.ceff) - self.vth,
                            ipi: F64(0),
                            y20_by: Params { ceff: F64(0), ..self.dy(t_vl, x.t0, dt, self.ceff) },
                            y50_by: Params { ceff: F64(0), ..self.dy(t_vth, x.t0, dt, self.ceff) },
                            ipi_by: no_params(),
                        },
                    ),
                )
            },
        }
    }

    pub open spec fn equations(self, x: Params) -> Attempt<Equations> {
        match self.alg {
            Alg::Pi => self.pi_equations(x),
            Alg::ZeroC2 => self.zero_c2_equations(x),
            Alg::Cap => Some(
                Ok(
                    Equations {
                        at: x,
                        y20: F64(0),
                        y50: F64(0),
                        ipi: F64(0),
                        y20_by: no_params(),
                        y50_by: no_params(),
                        ipi_by: no_params(),
                    },
                ),
            ),
        }
    }
}

impl<'a> Dmp<'a> {
    fn nr_order(&self) -> (r: usize)
        ensures
            r == self@.order(),
    {
        match self.alg {
            Alg::Cap => 1,
            Alg::ZeroC2 => 2,
            Alg::Pi => 3,
        }
    }

    fn gate_cap_delay_slew(&self, ceff: F64) -> (r: Option<(F64, F64)>)
        ensures
            r == self@.cap_delay_slew(ceff),
    {
        let (d, s): (F32, F32) = self.model.gate_delay(self.in_slew.to_f32(), ceff.to_f32())?;
        Some((d.to_f64(), s.to_f64()))
    }

    fn gate_delays(&self, ceff: F64) -> (r: Option<(F64, F64, F64)>)
        ensures
            r == self@.gate_delays(ceff),
    {
        let (t_vth, table_slew): (F64, F64) = self.gate_cap_delay_slew(ceff)?;
        let slew: F64 = table_slew * self.slew_derate;
        let t_vl: F64 = t_vth - slew * (self.vth - self.vl) / (self.vh - self.vl);
        Some((t_vth, t_vl, slew))
    }

    fn y0(&self, t: F64, cl: F64) -> (r: F64)
        ensures
            r == self@.y0(t, cl),
    {
        t - self.rd * cl * (F64(ONE) - exp2(t.negate() / (self.rd * cl)))
    }

    fn y0dt(&self, t: F64, cl: F64) -> (r: F64)
        ensures
            r == self@.y0dt(t, cl),
    {
        F64(ONE) - exp2(t.negate() / (self.rd * cl))
    }

    fn y0dcl(&self, t: F64, cl: F64) -> (r: F64)
        ensures
            r == self@.y0dcl(t, cl),
    {
        self.rd * ((F64(ONE) + t / (self.rd * cl)) * exp2(t.negate() / (self.rd * cl)) - F64(ONE))
    }

    fn y(&self, t: F64, t0: F64, dt: F64, cl: F64) -> (r: F64)
        ensures
            r == self@.y(t, t0, dt, cl),
    {
        let t1: F64 = t - t0;
        if t1.le(F64(0)) {
            F64(0)
        } else if t1.le(dt) {
            self.y0(t1, cl) / dt
        } else {
            (self.y0(t1, cl) - self.y0(t1 - dt, cl)) / dt
        }
    }

    fn dy(&self, t: F64, t0: F64, dt: F64, cl: F64) -> (r: Params)
        ensures
            r == self@.dy(t, t0, dt, cl),
    {
        let t1: F64 = t - t0;
        if t1.le(F64(0)) {
            return Params { t0: F64(0), dt: F64(0), ceff: F64(0) };
        }
        if t1.le(dt) {
            return Params {
                t0: self.y0dt(t1, cl).negate() / dt,
                dt: self.y0(t1, cl).negate() / (dt * dt),
                ceff: self.y0dcl(t1, cl) / dt,
            };
        }
        Params {
            t0: (self.y0dt(t1, cl) - self.y0dt(t1 - dt, cl)).negate() / dt,
            dt: (self.y0(t1, cl) + self.y0(t1 - dt, cl)).negate() / (dt * dt) + self.y0dt(t1 - dt, cl) / dt,
            ceff: (self.y0dcl(t1, cl) - self.y0dcl(t1 - dt, cl)) / dt,
        }
    }

    fn ipi_iceff(&self, dt: F64, ceff_time: F64, ceff: F64) -> (r: F64)
        ensures
            r == self@.ipi_iceff(dt, ceff_time, ceff),
    {
        let one: F64 = F64(ONE);
        let exp_p1_dt: F64 = exp2(self.p1.negate() * ceff_time);
        let exp_p2_dt: F64 = exp2(self.p2.negate() * ceff_time);
        let exp_dt_rd_ceff: F64 = exp2(ceff_time.negate() / (self.rd * ceff));
        let ipi: F64 = (self.a * ceff_time + (self.b / self.p1) * (one - exp_p1_dt) + (self.d / self.p2) * (one
            - exp_p2_dt)) / (self.rd * ceff_time * dt);
        let iceff: F64 = (self.rd * ceff * ceff_time - (self.rd * ceff) * (self.rd * ceff) * (one
            - exp_dt_rd_ceff)) / (self.rd * ceff_time * dt);
        ipi - iceff
    }

    fn eval_pi(&self, x: Params) -> (r: Option<Result<Equations, DmpError>>)
        ensures
            attempted(r) == self@.pi_equations(x),
    {
        let one: F64 = F64(ONE);
        let two: F64 = F64(TWO);
        let (t0, dt, ceff): (F64, F64, F64) = (x.t0, x.dt, x.ceff);
        if ceff.lt(F64(0)) {
            return Some(Err(DmpError("eqn eval failed: ceff < 0")));
        }
        if ceff.gt(self.c1 + self.c2) {
            return Some(Err(DmpError("eqn eval failed: ceff > c2 + c1")));
        }
        if dt.le(F64(0)) {
            return Some(Err(DmpError("eqn eval failed: dt < 0")));
        }
        let (t_vth, t_vl, slew): (F64, F64, F64) = self.gate_delays(ceff)?;
        if slew == F64(0) {
            return Some(Err(DmpError("eqn eval failed: slew = 0")));
        }
        let ceff_time: F64 = (slew / (self.vh - self.vl)).min(F64(CEFF_TIME_FACTOR) * dt);
        let exp_p1_dt: F64 = exp2(self.p1.negate() * dt);
        let exp_p2_dt: F64 = exp2(self.p2.negate() * dt);
        let exp_dt_rd_ceff: F64 = exp2(dt.negate() / (self.rd * ceff));
        let y50: F64 = self.y(t_vth, t0, dt, ceff);
        let y20: F64 = self.y(t_vl, t0, dt, ceff);
        let b_div_p1: F64 = self.b / self.p1;
        let d_div_p2: F64 = self.d / self.p2;
        let rd_ceff: F64 = self.rd * ceff;
        let term_a: F64 = self.a.negate() * dt;
        let term_b: F64 = self.b * dt * exp_p1_dt - two * b_div_p1 * (one - exp_p1_dt);
        let term_d: F64 = self.d * dt * exp_p2_dt - two * d_div_p2 * (one - exp_p2_dt);
        let term_rd: F64 = rd_ceff * (dt + dt * exp_dt_rd_ceff - two * rd_ceff * (one - exp_dt_rd_ceff));
        let two_rd_ceff: F64 = two * rd_ceff;
        let equations: Equations = Equations {
            at: x,
            y20: y20 - self.vl,
            y50: y50 - self.vth,
            ipi: self.ipi_iceff(dt, ceff_time, ceff),
            y20_by: self.dy(t_vl, t0, dt, ceff),
            y50_by: self.dy(t_vth, t0, dt, ceff),
            ipi_by: Params {
                t0: F64(0),
                dt: (term_a + term_b + term_d + term_rd) / (self.rd * dt * dt * dt),
                ceff: (two_rd_ceff - dt - (two_rd_ceff + dt) * exp_dt_rd_ceff) / (dt * dt),
            },
        };
        Some(Ok(equations))
    }

    fn eval_zero_c2(&self, x: Params) -> (r: Option<Result<Equations, DmpError>>)
        ensures
            attempted(r) == self@.zero_c2_equations(x),
    {
        let (t_vth, t_vl, _): (F64, F64, F64) = self.gate_delays(self.ceff)?;
        let mut dt: F64 = x.dt;
        if dt.le(F64(0)) {
            dt = (t_vl - t_vth) / F64(HUNDRED);
        }
        let low: Params = self.dy(t_vl, x.t0, dt, self.ceff);
        let mid: Params = self.dy(t_vth, x.t0, dt, self.ceff);
        let zero: F64 = F64(0);
        let equations: Equations = Equations {
            at: Params { t0: x.t0, dt, ceff: x.ceff },
            y20: self.y(t_vl, x.t0, dt, self.ceff) - self.vl,
            y50: self.y(t_vth, x.t0, dt, self.ceff) - self.vth,
            ipi: zero,
            y20_by: Params { t0: low.t0, dt: low.dt, ceff: zero },
            y50_by: Params { t0: mid.t0, dt: mid.dt, ceff: zero },
            ipi_by: Params { t0: zero, dt: zero, ceff: zero },
        };
        Some(Ok(equations))
    }

    /// The residuals and the Jacobian (pi and one-pole kinds).
    fn eval(&self, x: Params) -> (r: Option<Result<Equations, DmpError>>)
        ensures
            attempted(r) == self@.equations(x),
    {
        match self.alg {
            Alg::Pi => self.eval_pi(x),
            Alg::ZeroC2 => self.eval_zero_c2(x),
            Alg::Cap => {
                let zero: F64 = F64(0);
                let none: Params = Params { t0: zero, dt: zero, ceff: zero };
                let equations: Equations = Equations {
                    at: x,
                    y20: zero,
                    y50: zero,
                    ipi: zero,
                    y20_by: none,
                    y50_by: none,
                    ipi_by: none,
                };
                Some(Ok(equations))
            },
        }
    }
}

/// An attempt's outcome, its error by its text.
pub open spec fn attempted<T>(r: Option<Result<T, DmpError>>) -> Attempt<T> {
    match r {
        None => None,
        Some(Ok(v)) => Some(Ok(v)),
        Some(Err(e)) => Some(Err(e.0@)),
    }
}


impl DmpView {
    /// The Newton step from one evaluation, or the reason why there is none.
    pub open spec fn newton_step(self, e: Equations) -> Result<Seq<F64>, Seq<char>> {
        let m = e.jacobian();
        if self.order() == 2 {
            if determinant2(m).abs_value().is_lt(F64(SINGULAR)) {
                Err("Jacobian is singular (order 2)"@)
            } else {
                Ok(step2(m, e.residuals()))
            }
        } else {
            if determinant(m).abs_value().is_lt(F64(SINGULAR)) {
                Err("Jacobian is singular (order 3)"@)
            } else {
                Ok(step3(m, e.residuals()))
            }
        }
    }

    /// Every step is within the tolerance of its parameter.
    pub open spec fn settled(self, p: Seq<F64>, x: Params) -> bool {
        let tol = F64(DRIVER_PARAM_TOL);
        &&& p[0].abs_value().is_le(x.t0.abs_value() * tol)
        &&& self.order() >= 2 ==> p[1].abs_value().is_le(x.dt.abs_value() * tol)
        &&& self.order() >= 3 ==> p[2].abs_value().is_le(x.ceff.abs_value() * tol)
    }

    /// The parameters a step later.
    pub open spec fn stepped(self, p: Seq<F64>, x: Params) -> Params {
        Params {
            t0: x.t0 + p[0],
            dt: if self.order() >= 2 {
                x.dt + p[1]
            } else {
                x.dt
            },
            ceff: if self.order() >= 3 {
                x.ceff + p[2]
            } else {
                x.ceff
            },
        }
    }

    /// Newton-Raphson, `n` steps at most, until every step is within the tolerance.
    pub open spec fn newton(self, x: Params, n: nat) -> Attempt<Params>
        decreases n,
    {
        if n == 0 {
            Some(Err("Newton-Raphson max iterations exceeded"@))
        } else {
            match self.equations(x) {
                None => None,
                Some(Err(e)) => Some(Err(e)),
                Some(Ok(e)) => match self.newton_step(e) {
                    Err(m) => Some(Err(m)),
                    Ok(p) => if self.settled(p, e.at) {
                        Some(Ok(self.stepped(p, e.at)))
                    } else {
                        self.newton(self.stepped(p, e.at), (n - 1) as nat)
                    },
                },
            }
        }
    }

    /// The driver waveform parameters from a first guess at `ceff`.
    pub open spec fn driver_params(self, ceff: F64) -> Attempt<Params> {
        match self.gate_delays(ceff) {
            None => None,
            Some((t_vth, _, slew)) => {
                let dt = slew / (self.vh - self.vl);
                let t0 = t_vth + self.ln_rest * self.rd * ceff - self.vth * dt;
                self.newton(
                    Params {
                        t0,
                        dt,
                        ceff: if self.order() == 3 {
                            ceff
                        } else {
                            F64(0)
                        },
                    },
                    NEWTON_RAPHSON_MAX_ITER as nat,
                )
            },
        }
    }

    /// The state with the parameters found.
    pub open spec fn with_params(self, x: Params) -> DmpView {
        DmpView {
            t0: x.t0,
            dt: x.dt,
            ceff: if self.order() == 3 {
                x.ceff
            } else {
                self.ceff
            },
            ..self
        }
    }

    /// The unit-ramp driver output and its slope.
    pub open spec fn v0(self, t: F64) -> (F64, F64) {
        match self.alg {
            Alg::Pi => {
                let (e1, e2) = (fast_exp(-self.p1 * t), fast_exp(-self.p2 * t));
                (
                    self.k0 * (self.k1 + self.k2 * t + self.k3 * e1 + self.k4 * e2),
                    self.k0 * (self.k2 - self.k3 * self.p1 * e1 - self.k4 * self.p2 * e2),
                )
            },
            Alg::ZeroC2 => {
                let e1 = fast_exp(-self.p1 * t);
                (
                    self.k0 * (self.k1 + self.k2 * t + self.k3 * e1),
                    self.k0 * (self.k2 - self.k3 * self.p1 * e1),
                )
            },
            Alg::Cap => (F64(0), F64(0)),
        }
    }

    /// The unit-ramp load voltage and its slope.
    pub open spec fn vl0(self, t: F64) -> (F64, F64) {
        let p3 = self.p3;
        match self.alg {
            Alg::Pi => {
                let d1 = self.k0 * (self.k1 - self.k2 / p3);
                let d3 = -p3 * self.k0 * self.k3 / (self.p1 - p3);
                let d4 = -p3 * self.k0 * self.k4 / (self.p2 - p3);
                let d5 = self.k0 * (self.k2 / p3 - self.k1 + p3 * self.k3 / (self.p1 - p3) + p3 * self.k4 / (
                self.p2 - p3));
                let (e1, e2, e3) = (fast_exp(-self.p1 * t), fast_exp(-self.p2 * t), fast_exp(-p3 * t));
                (
                    d1 + t + d3 * e1 + d4 * e2 + d5 * e3,
                    F64(ONE) - d3 * self.p1 * e1 - d4 * self.p2 * e2 - d5 * p3 * e3,
                )
            },
            Alg::ZeroC2 => {
                let d1 = self.k0 * (self.k1 - self.k2 / p3);
                let d3 = -p3 * self.k0 * self.k3 / (self.p1 - p3);
                let d5 = self.k0 * (self.k2 / p3 - self.k1 + p3 * self.k3 / (self.p1 - p3));
                let (e1, e3) = (fast_exp(-self.p1 * t), fast_exp(-p3 * t));
                (d1 + t + d3 * e1 + d5 * e3, F64(ONE) - d3 * self.p1 * e1 - d5 * p3 * e3)
            },
            Alg::Cap => (F64(0), F64(0)),
        }
    }

    /// The driver output (`at_load` false) or load voltage and its slope for the ramp found.
    pub open spec fn waveform(self, at_load: bool, t: F64) -> (F64, F64) {
        let t1 = t - self.t0;
        let unit = if at_load {
            self.vl0(t1)
        } else {
            self.v0(t1)
        };
        let late = if at_load {
            self.vl0(t1 - self.dt)
        } else {
            self.v0(t1 - self.dt)
        };
        if t1.is_le(F64(0)) {
            (F64(0), F64(0))
        } else if t1.is_le(self.dt) {
            (unit.0 / self.dt, unit.1 / self.dt)
        } else {
            ((unit.0 - late.0) / self.dt, (unit.1 - late.1) / self.dt)
        }
    }

    /// The waveform less a threshold.
    pub open spec fn crossing_function(self, at_load: bool, v: F64) -> spec_fn(F64) -> (F64, F64) {
        |t: F64| (self.waveform(at_load, t).0 - v, self.waveform(at_load, t).1)
    }

    /// The time at which the waveform crosses a threshold.
    pub open spec fn crossing(self, at_load: bool, v: F64, lower: F64, upper: F64) -> Option<F64> {
        let (t, failed) = root_of(
            self.crossing_function(at_load, v),
            lower,
            upper,
            F64(VTH_TIME_TOL),
            FIND_ROOT_MAX_ITER as int,
        );
        if failed {
            None
        } else {
            Some(t)
        }
    }

    pub open spec fn crossing_upper_bound(self) -> F64 {
        match self.alg {
            Alg::Pi => self.t0 + self.dt + (self.c1 + self.c2) * (self.rd + self.rpi) * F64(TWO),
            Alg::ZeroC2 => self.t0 + self.dt + self.c1 * (self.rd + self.rpi) * F64(TWO),
            Alg::Cap => F64(0),
        }
    }

    /// The times at which the waveform crosses the delay, lower and upper thresholds.
    pub open spec fn crossings(self, at_load: bool, upper: F64) -> Option<(F64, F64, F64)> {
        match self.crossing(at_load, self.vth, self.t0, upper) {
            None => None,
            Some(t) => match (
                self.crossing(at_load, self.vl, self.t0, t),
                self.crossing(at_load, self.vh, t, upper),
            ) {
                (Some(tl), Some(th)) => Some((t, tl, th)),
                _ => None,
            },
        }
    }

    /// The driver's delay and slew by its threshold crossings.
    pub open spec fn driver_delay_slew(self) -> Option<(F64, F64)> {
        match self.crossings(false, self.crossing_upper_bound()) {
            Some((delay, tl, th)) => Some((delay, (th - tl) / self.slew_derate)),
            None => None,
        }
    }

    /// The state after a gate delay at `ceff` read from the table alone.
    pub open spec fn by_table(self, ceff: F64) -> Option<(DmpView, (F64, F64))> {
        match self.cap_delay_slew(ceff) {
            None => None,
            Some((delay, slew)) => Some((DmpView { ceff, drvr_slew: slew, ..self }, (delay, slew))),
        }
    }

    /// Gate delay and slew of the full pi: the table's delay at the effective capacitance and
    /// the slew of the waveform, where both are found.
    pub open spec fn pi_delay_slew(self) -> Option<(DmpView, (F64, F64))> {
        let s = DmpView { driver_valid: false, ..self };
        let first = match s.driver_params(s.c2 + s.c1) {
            Some(Err(_)) => s.driver_params(s.c2),
            other => other,
        };
        match first {
            None => None,
            Some(Err(_)) => s.by_table(s.c1 + s.c2),
            Some(Ok(x)) => {
                let s = s.with_params(x);
                match (s.cap_delay_slew(s.ceff), s.driver_delay_slew()) {
                    (None, _) => None,
                    (Some((delay, _)), Some((vo_delay, vo_slew))) => Some(
                        (
                            DmpView { driver_valid: true, vo_delay, drvr_slew: vo_slew, ..s },
                            (delay, vo_slew),
                        ),
                    ),
                    (Some((delay, slew)), None) => Some((DmpView { drvr_slew: slew, ..s }, (delay, slew))),
                }
            },
        }
    }

    /// Gate delay and slew with no near capacitance: both those of the waveform, where it is
    /// found, else the table's.
    pub open spec fn zero_c2_delay_slew(self) -> Option<(DmpView, (F64, F64))> {
        match self.driver_params(self.c1) {
            None => None,
            Some(Err(_)) => DmpView { driver_valid: false, ..self }.by_table(self.c1),
            Some(Ok(x)) => {
                let s = DmpView { ceff: self.c1, ..self.with_params(x) };
                match s.driver_delay_slew() {
                    Some((delay, slew)) => Some(
                        (DmpView { driver_valid: true, vo_delay: delay, drvr_slew: slew, ..s }, (delay, slew)),
                    ),
                    None => DmpView { driver_valid: false, ..s }.by_table(s.c1),
                }
            },
        }
    }

    /// The state after a gate delay was computed, and the delay and slew.
    pub open spec fn gate_result(self) -> Option<(DmpView, (F64, F64))> {
        match self.alg {
            Alg::Cap => self.by_table(self.ceff),
            Alg::Pi => self.pi_delay_slew(),
            Alg::ZeroC2 => self.zero_c2_delay_slew(),
        }
    }

    /// The load waveform is not solved for: there is no driver waveform, or the wire is too short
    /// to matter.
    pub open spec fn load_is_simple(self, elmore: F64) -> bool {
        self.alg is Cap || !self.driver_valid || elmore.is_eq(F64(0)) || elmore.is_lt(
            self.drvr_slew * F64(NEGLIGIBLE),
        )
    }

    /// The state after a load's delay was computed.
    pub open spec fn at_load(self, elmore: F64) -> DmpView {
        if self.load_is_simple(elmore) {
            self
        } else {
            DmpView { elmore, p3: F64(ONE) / elmore, ..self }
        }
    }

    /// The wire delay and load slew at a load with this Elmore delay.
    pub open spec fn load_result(self, elmore: F64) -> (F64, F64) {
        let s = self.at_load(elmore);
        if self.load_is_simple(elmore) {
            (elmore, self.drvr_slew)
        } else {
            match s.crossings(true, s.crossing_upper_bound() + elmore * F64(TWO)) {
                None => (elmore, s.drvr_slew),
                Some((t, tl, th)) => {
                    let delay = t - s.vo_delay;
                    let slew = (th - tl) / s.slew_derate;
                    (
                        if delay.is_lt(F64(0)) {
                            elmore
                        } else {
                            delay
                        },
                        if slew.is_lt(s.drvr_slew) {
                            s.drvr_slew
                        } else {
                            slew
                        },
                    )
                },
            }
        }
    }
}

impl<'a> Dmp<'a> {
    fn newton_step(&self, e: &Equations) -> (r: Result<[F64; 3], DmpError>)
        ensures
            match r {
                Ok(p) => self@.newton_step(*e) == Ok::<Seq<F64>, Seq<char>>(p@),
                Err(m) => self@.newton_step(*e) == Err::<Seq<F64>, Seq<char>>(m.0@),
            },
    {
        let m: M3 = [e.y20_by.array(), e.y50_by.array(), e.ipi_by.array()];
        let f: [F64; 3] = [e.y20, e.y50, e.ipi];
        assert(rows(m) =~= e.jacobian());
        assert(f@ =~= e.residuals());
        if self.nr_order() == 2 {
            let det: F64 = m[0][0] * m[1][1] - m[1][0] * m[0][1];
            if det.abs().lt(F64(SINGULAR)) {
                return Err(DmpError("Jacobian is singular (order 2)"));
            }
            Ok(solve2(&m, f))
        } else {
            if det3(&m).abs().lt(F64(SINGULAR)) {
                return Err(DmpError("Jacobian is singular (order 3)"));
            }
            Ok(solve3(&m, f))
        }
    }

    /// Newton-Raphson until every step is within the tolerance of its parameter.
    fn newton_raphson(&self, start: Params) -> (r: Option<Result<Params, DmpError>>)
        ensures
            attempted(r) == self@.newton(start, NEWTON_RAPHSON_MAX_ITER as nat),
    {
        let n: usize = self.nr_order();
        let tol: F64 = F64(DRIVER_PARAM_TOL);
        let mut x: Params = start;
        let mut left: u32 = NEWTON_RAPHSON_MAX_ITER;
        while left > 0
            invariant
                n == self@.order(),
                tol == F64(DRIVER_PARAM_TOL),
                self@.newton(x, left as nat) == self@.newton(start, NEWTON_RAPHSON_MAX_ITER as nat),
            decreases left,
        {
            let e: Equations = match self.eval(x)? {
                Ok(e) => e,
                Err(m) => {
                    return Some(Err(m));
                },
            };
            let p: [F64; 3] = match self.newton_step(&e) {
                Ok(p) => p,
                Err(m) => {
                    return Some(Err(m));
                },
            };
            x = e.at;
            let all_under: bool = p[0].abs().le(x.t0.abs() * tol) && (n < 2 || p[1].abs().le(x.dt.abs() * tol))
                && (n < 3 || p[2].abs().le(x.ceff.abs() * tol));
            x.t0 = x.t0 + p[0];
            if n >= 2 {
                x.dt = x.dt + p[1];
            }
            if n >= 3 {
                x.ceff = x.ceff + p[2];
            }
            assert(all_under == self@.settled(p@, e.at));
            assert(x == self@.stepped(p@, e.at));
            if all_under {
                return Some(Ok(x));
            }
            left = left - 1;
        }
        Some(Err(DmpError("Newton-Raphson max iterations exceeded")))
    }

    /// The driver waveform parameters from a first guess at `ceff`.
    fn find_driver_params(&self, ceff: F64) -> (r: Option<Result<Params, DmpError>>)
        ensures
            attempted(r) == self@.driver_params(ceff),
    {
        let (t_vth, _t_vl, slew): (F64, F64, F64) = self.gate_delays(ceff)?;
        let dt: F64 = slew / (self.vh - self.vl);
        let t0: F64 = t_vth + self.ln_rest * self.rd * ceff - self.vth * dt;
        let first: F64 = if self.nr_order() == 3 {
            ceff
        } else {
            F64(0)
        };
        self.newton_raphson(Params { t0, dt, ceff: first })
    }

    fn set_params(&mut self, x: Params)
        ensures
            final(self)@ == old(self)@.with_params(x),
    {
        self.t0 = x.t0;
        self.dt = x.dt;
        if self.nr_order() == 3 {
            self.ceff = x.ceff;
        }
    }

    fn v0(&self, t: F64) -> (r: (F64, F64))
        ensures
            r == self@.v0(t),
    {
        match self.alg {
            Alg::Pi => {
                let e1: F64 = exp2(self.p1.negate() * t);
                let e2: F64 = exp2(self.p2.negate() * t);
                (
                    self.k0 * (self.k1 + self.k2 * t + self.k3 * e1 + self.k4 * e2),
                    self.k0 * (self.k2 - self.k3 * self.p1 * e1 - self.k4 * self.p2 * e2),
                )
            },
            Alg::ZeroC2 => {
                let e1: F64 = exp2(self.p1.negate() * t);
                (
                    self.k0 * (self.k1 + self.k2 * t + self.k3 * e1),
                    self.k0 * (self.k2 - self.k3 * self.p1 * e1),
                )
            },
            Alg::Cap => (F64(0), F64(0)),
        }
    }

    fn vl0(&self, t: F64) -> (r: (F64, F64))
        ensures
            r == self@.vl0(t),
    {
        let p3: F64 = self.p3;
        match self.alg {
            Alg::Pi => {
                let d1: F64 = self.k0 * (self.k1 - self.k2 / p3);
                let d3: F64 = p3.negate() * self.k0 * self.k3 / (self.p1 - p3);
                let d4: F64 = p3.negate() * self.k0 * self.k4 / (self.p2 - p3);
                let d5: F64 = self.k0 * (self.k2 / p3 - self.k1 + p3 * self.k3 / (self.p1 - p3) + p3 * self.k4
                    / (self.p2 - p3));
                let e1: F64 = exp2(self.p1.negate() * t);
                let e2: F64 = exp2(self.p2.negate() * t);
                let e3: F64 = exp2(p3.negate() * t);
                (
                    d1 + t + d3 * e1 + d4 * e2 + d5 * e3,
                    F64(ONE) - d3 * self.p1 * e1 - d4 * self.p2 * e2 - d5 * p3 * e3,
                )
            },
            Alg::ZeroC2 => {
                let d1: F64 = self.k0 * (self.k1 - self.k2 / p3);
                let d3: F64 = p3.negate() * self.k0 * self.k3 / (self.p1 - p3);
                let d5: F64 = self.k0 * (self.k2 / p3 - self.k1 + p3 * self.k3 / (self.p1 - p3));
                let e1: F64 = exp2(self.p1.negate() * t);
                let e3: F64 = exp2(p3.negate() * t);
                (d1 + t + d3 * e1 + d5 * e3, F64(ONE) - d3 * self.p1 * e1 - d5 * p3 * e3)
            },
            Alg::Cap => (F64(0), F64(0)),
        }
    }

    /// The driver output and its slope.
    fn vo(&self, t: F64) -> (r: (F64, F64))
        ensures
            r == self@.waveform(false, t),
    {
        let t1: F64 = t - self.t0;
        if t1.le(F64(0)) {
            return (F64(0), F64(0));
        }
        let (v, dv): (F64, F64) = self.v0(t1);
        if t1.le(self.dt) {
            return (v / self.dt, dv / self.dt);
        }
        let (v_dt, dv_dt): (F64, F64) = self.v0(t1 - self.dt);
        ((v - v_dt) / self.dt, (dv - dv_dt) / self.dt)
    }

    /// The load voltage and its slope.
    fn vl(&self, t: F64) -> (r: (F64, F64))
        ensures
            r == self@.waveform(true, t),
    {
        let t1: F64 = t - self.t0;
        if t1.le(F64(0)) {
            return (F64(0), F64(0));
        }
        let (v, dv): (F64, F64) = self.vl0(t1);
        if t1.le(self.dt) {
            return (v / self.dt, dv / self.dt);
        }
        let (v_dt, dv_dt): (F64, F64) = self.vl0(t1 - self.dt);
        ((v - v_dt) / self.dt, (dv - dv_dt) / self.dt)
    }

    fn vo_crossing_upper_bound(&self) -> (r: F64)
        ensures
            r == self@.crossing_upper_bound(),
    {
        match self.alg {
            Alg::Pi => self.t0 + self.dt + (self.c1 + self.c2) * (self.rd + self.rpi) * F64(TWO),
            Alg::ZeroC2 => self.t0 + self.dt + self.c1 * (self.rd + self.rpi) * F64(TWO),
            Alg::Cap => F64(0),
        }
    }

    fn find_vo_crossing(&self, vth: F64, t_lower: F64, t_upper: F64) -> (r: Result<F64, DmpError>)
        ensures
            match r {
                Ok(t) => self@.crossing(false, vth, t_lower, t_upper) == Some(t),
                Err(e) => self@.crossing(false, vth, t_lower, t_upper) is None && e.0@
                    == "find Vo crossing failed"@,
            },
    {
        let f = |t: F64| -> (y: (F64, F64))
            ensures
                y == (self@.waveform(false, t).0 - vth, self@.waveform(false, t).1),
            {
                let (vo, dvo): (F64, F64) = self.vo(t);
                (vo - vth, dvo)
            };
        let (t, failed): (F64, bool) = find_root(
            &f,
            t_lower,
            t_upper,
            F64(VTH_TIME_TOL),
            FIND_ROOT_MAX_ITER,
        );
        assert(computes(f, self@.crossing_function(false, vth)));
        if failed {
            Err(DmpError("find Vo crossing failed"))
        } else {
            Ok(t)
        }
    }

    fn find_vl_crossing(&self, vth: F64, t_lower: F64, t_upper: F64) -> (r: Result<F64, DmpError>)
        ensures
            match r {
                Ok(t) => self@.crossing(true, vth, t_lower, t_upper) == Some(t),
                Err(e) => self@.crossing(true, vth, t_lower, t_upper) is None && e.0@
                    == "find Vl crossing failed"@,
            },
    {
        let f = |t: F64| -> (y: (F64, F64))
            ensures
                y == (self@.waveform(true, t).0 - vth, self@.waveform(true, t).1),
            {
                let (v, dv): (F64, F64) = self.vl(t);
                (v - vth, dv)
            };
        let (t, failed): (F64, bool) = find_root(
            &f,
            t_lower,
            t_upper,
            F64(VTH_TIME_TOL),
            FIND_ROOT_MAX_ITER,
        );
        assert(computes(f, self@.crossing_function(true, vth)));
        if failed {
            Err(DmpError("find Vl crossing failed"))
        } else {
            Ok(t)
        }
    }

    /// The output waveform's threshold crossings.
    fn find_driver_delay_slew(&self) -> (r: Result<(F64, F64), DmpError>)
        ensures
            match r {
                Ok(v) => self@.driver_delay_slew() == Some(v),
                Err(_) => self@.driver_delay_slew() is None,
            },
    {
        let t_upper: F64 = self.vo_crossing_upper_bound();
        let delay: F64 = self.find_vo_crossing(self.vth, self.t0, t_upper)?;
        let tl: F64 = self.find_vo_crossing(self.vl, self.t0, delay)?;
        let th: F64 = self.find_vo_crossing(self.vh, delay, t_upper)?;
        Ok((delay, (th - tl) / self.slew_derate))
    }

    fn table_delay_slew(self, ceff: F64) -> (r: Option<(Dmp<'a>, (F64, F64))>)
        ensures
            viewed(r) == self@.by_table(ceff),
    {
        let (delay, slew): (F64, F64) = self.gate_cap_delay_slew(ceff)?;
        let mut d: Dmp<'a> = self;
        d.ceff = ceff;
        d.drvr_slew = slew;
        Some((d, (delay, slew)))
    }

    fn pi_delay_slew(self) -> (r: Option<(Dmp<'a>, (F64, F64))>)
        ensures
            viewed(r) == self@.pi_delay_slew(),
    {
        let mut d: Dmp<'a> = self;
        d.driver_valid = false;
        let first: Result<Params, DmpError> = match d.find_driver_params(d.c2 + d.c1)? {
            Ok(x) => Ok(x),
            Err(_) => d.find_driver_params(d.c2)?,
        };
        match first {
            Ok(x) => {
                d.set_params(x);
                let (table_delay, table_slew): (F64, F64) = d.gate_cap_delay_slew(d.ceff)?;
                match d.find_driver_delay_slew() {
                    Ok((vo_delay, vo_slew)) => {
                        d.driver_valid = true;
                        d.vo_delay = vo_delay;
                        d.drvr_slew = vo_slew;
                        Some((d, (table_delay, vo_slew)))
                    },
                    Err(_) => {
                        d.drvr_slew = table_slew;
                        Some((d, (table_delay, table_slew)))
                    },
                }
            },
            Err(_) => d.table_delay_slew(d.c1 + d.c2),
        }
    }

    fn zero_c2_delay_slew(self) -> (r: Option<(Dmp<'a>, (F64, F64))>)
        ensures
            viewed(r) == self@.zero_c2_delay_slew(),
    {
        let mut d: Dmp<'a> = self;
        match d.find_driver_params(d.c1)? {
            Ok(x) => {
                d.set_params(x);
                d.ceff = d.c1;
                match d.find_driver_delay_slew() {
                    Ok((delay, slew)) => {
                        d.driver_valid = true;
                        d.vo_delay = delay;
                        d.drvr_slew = slew;
                        return Some((d, (delay, slew)));
                    },
                    Err(_) => {},
                }
            },
            Err(_) => {},
        }
        d.driver_valid = false;
        d.table_delay_slew(d.c1)
    }

    /// Gate delay and driver slew (both double; the caller narrows); none, with the state
    /// unchanged, where a table lookup reads outside its table.
    pub fn gate_delay_slew(&mut self) -> (r: Option<(F64, F64)>)
        ensures
            match old(self)@.gate_result() {
                Some((d, v)) => r == Some(v) && final(self)@ == d,
                None => r is None && final(self)@ == old(self)@,
            },
    {
        let solved: Option<(Dmp<'a>, (F64, F64))> = match self.alg {
            Alg::Cap => self.table_delay_slew(self.ceff),
            Alg::Pi => self.pi_delay_slew(),
            Alg::ZeroC2 => self.zero_c2_delay_slew(),
        };
        match solved {
            Some((d, v)) => {
                *self = d;
                Some(v)
            },
            None => None,
        }
    }

    fn solve_load(&self) -> (r: Result<(F64, F64, F64), DmpError>)
        ensures
            match r {
                Ok(v) => self@.crossings(
                    true,
                    self@.crossing_upper_bound() + self@.elmore * F64(TWO),
                ) == Some(v),
                Err(_) => self@.crossings(
                    true,
                    self@.crossing_upper_bound() + self@.elmore * F64(TWO),
                ) is None,
            },
    {
        let t_lower: F64 = self.t0;
        let t_upper: F64 = self.vo_crossing_upper_bound() + self.elmore * F64(TWO);
        let load_delay: F64 = self.find_vl_crossing(self.vth, t_lower, t_upper)?;
        let tl: F64 = self.find_vl_crossing(self.vl, t_lower, load_delay)?;
        let th: F64 = self.find_vl_crossing(self.vh, load_delay, t_upper)?;
        Ok((load_delay, tl, th))
    }

    /// The wire delay and load slew at a load with this Elmore delay (capacitive kind: the Elmore
    /// delay and the driver slew).
    pub fn load_delay_slew(&mut self, elmore: F64) -> (r: (F64, F64))
        ensures
            r == old(self)@.load_result(elmore),
            final(self)@ == old(self)@.at_load(elmore),
    {
        if matches!(self.alg, Alg::Cap) || !self.driver_valid || elmore == F64(0) || elmore.lt(
            self.drvr_slew * F64(NEGLIGIBLE),
        ) {
            return (elmore, self.drvr_slew);
        }
        self.elmore = elmore;
        self.p3 = F64(ONE) / elmore;
        match self.solve_load() {
            Ok((load_delay, tl, th)) => {
                let mut delay: F64 = load_delay - self.vo_delay;
                let mut slew: F64 = (th - tl) / self.slew_derate;
                if delay.lt(F64(0)) {
                    delay = elmore;
                }
                if slew.lt(self.drvr_slew) {
                    slew = self.drvr_slew;
                }
                (delay, slew)
            },
            Err(_) => (elmore, self.drvr_slew),
        }
    }
}

/// A result with its state by its view.
pub open spec fn viewed<'a>(r: Option<(Dmp<'a>, (F64, F64))>) -> Option<(DmpView, (F64, F64))> {
    match r {
        Some((d, v)) => Some((d@, v)),
        None => None,
    }
}

/// The wire delay and load slew of an input port's load.
pub open spec fn port_wire_delay_slew(
    drvr_slew: F64,
    elmore: F32,
    load: Thresholds,
    logs: ThresholdLogs,
) -> (F64, F64) {
    (
        (-elmore).widened() * logs.rest,
        drvr_slew + elmore.widened() * logs.slew / load.slew_derate.widened(),
    )
}

/// An input port's wire delay and load slew from the load's Elmore delay, at the load library's
/// thresholds (`vth` its input threshold).
pub fn dspf_wire_delay_slew(drvr_slew: F64, elmore: F32, load: &Thresholds, logs: &ThresholdLogs) -> (r: (
    F64,
    F64,
))
    ensures
        r == port_wire_delay_slew(drvr_slew, elmore, *load, *logs),
{
    let wire_delay: F64 = elmore.negate().to_f64() * logs.rest;
    let load_slew: F64 = drvr_slew + elmore.to_f64() * logs.slew / load.slew_derate.to_f64();
    (wire_delay, load_slew)
}

/// A library's thresholds for [`threshold_adjust`]: output and input threshold, slew lower and
/// upper threshold, slew derate, for one transition.
#[derive(Debug, Clone, Copy, PartialEq)]
pub struct LibThresholds {
    pub output: F32,
    pub input: F32,
    pub lower: F32,
    pub upper: F32,
    pub derate: F32,
}

/// A wire delay and load slew moved between two libraries' thresholds.
pub open spec fn adjusted(
    same_library: bool,
    drvr: LibThresholds,
    load: LibThresholds,
    rise: bool,
    wire_delay: F64,
    load_slew: F64,
) -> (F64, F64) {
    let drvr_slew_delta = drvr.upper - drvr.lower;
    let wire_delay_delta = load_slew.narrowed() * ((load.input - drvr.output) / drvr_slew_delta);
    let load_slew_delta = load.upper - load.lower;
    if same_library {
        (wire_delay, load_slew)
    } else {
        (
            wire_delay + (if rise {
                wire_delay_delta
            } else {
                -wire_delay_delta
            }).widened(),
            load_slew * ((load_slew_delta / load.derate) / (drvr_slew_delta / drvr.derate)).widened(),
        )
    }
}

/// When the load's library is not the driver's, move the wire delay and scale the load slew
/// between their thresholds (`rise` adds the delta, `fall` subtracts it), in single precision
/// factors on the double values.
pub fn threshold_adjust(
    same_library: bool,
    drvr: &LibThresholds,
    load: &LibThresholds,
    rise: bool,
    wire_delay: &mut F64,
    load_slew: &mut F64,
)
    ensures
        (*final(wire_delay), *final(load_slew)) == adjusted(
            same_library,
            *drvr,
            *load,
            rise,
            *old(wire_delay),
            *old(load_slew),
        ),
{
    if same_library {
        return;
    }
    let drvr_slew_delta: F32 = drvr.upper - drvr.lower;
    let wire_delay_delta: F32 = load_slew.to_f32() * ((load.input - drvr.output) / drvr_slew_delta);
    let moved: F32 = if rise {
        wire_delay_delta
    } else {
        wire_delay_delta.negate()
    };
    *wire_delay = *wire_delay + moved.to_f64();
    let load_slew_delta: F32 = load.upper - load.lower;
    *load_slew = *load_slew * ((load_slew_delta / load.derate) / (drvr_slew_delta / drvr.derate)).to_f64();
}

/// Loads in the driver's own library keep their wire delay and slew.
pub proof fn lemma_same_library_unchanged(
    drvr: LibThresholds,
    load: LibThresholds,
    rise: bool,
    wire_delay: F64,
    load_slew: F64,
)
    ensures
        adjusted(true, drvr, load, rise, wire_delay, load_slew) == (wire_delay, load_slew),
{
}


/// A load's slew is never below the driver's, and its wire delay is negative only where its
/// Elmore delay is.
pub proof fn lemma_load_bounds(d: DmpView, elmore: F64)
    ensures
        !d.load_result(elmore).1.is_lt(d.drvr_slew),
        d.load_result(elmore).0.is_lt(F64(0)) ==> elmore.is_lt(F64(0)),
{
    reveal(F64::is_lt);
}

/// Computing a gate delay changes what is solved for and nothing else: the table, the driver,
/// the pi model and the thresholds stay.
pub proof fn lemma_gate_keeps_circuit(d: DmpView)
    ensures
        d.gate_result() matches Some((e, _)) ==> e == (DmpView {
            t0: e.t0,
            dt: e.dt,
            ceff: e.ceff,
            drvr_slew: e.drvr_slew,
            vo_delay: e.vo_delay,
            driver_valid: e.driver_valid,
            ..d
        }),
        d.gate_result() matches Some((e, v)) ==> e.drvr_slew == v.1,
{
}


} // verus!
