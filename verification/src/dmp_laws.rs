//! The circuit behind a gate delay: which algorithm fits it, the resistance its table implies, and
//! where its waveforms start and end.

use vstd::prelude::*;
use crate::dcalc;
use crate::dcalc::{Alg, DmpView, EXP2_FLOOR, HALF, NEGLIGIBLE, ONE, RD_LIMIT, TWO};
use crate::float32::F32;
use crate::float64::F64;
use crate::identities;
use crate::table::GateModelView;
use crate::whole;

verus! {

/// A resistance or capacitance is negligible beside another.
pub open spec fn negligible(x: F64, beside: F64) -> bool {
    x.is_lt(beside * F64(NEGLIGIBLE))
}

/// A load is capacitive where the driver has no resistance to speak of, where the wire has none beside
/// the driver's, and where there is nothing behind the wire, or nothing to speak of beside what is in
/// front of it. Of the others one with nothing to speak of in front has its own form.
pub proof fn lemma_algorithm_fits_the_circuit(rd: F64, c2: F64, rpi: F64, c1: F64)
    ensures
        ({
            let alg = dcalc::choose_algorithm(rd, c2, rpi, c1);
            let no_wire = rpi.is_eq(F64(0)) || negligible(rpi, rd);
            let nothing_behind = c1.is_eq(F64(0)) || negligible(c1, c2);
            &&& rd.is_lt(F64(RD_LIMIT)) ==> alg == Alg::Cap
            &&& no_wire ==> alg == Alg::Cap
            &&& nothing_behind ==> alg == Alg::Cap
            &&& !rd.is_lt(F64(RD_LIMIT)) && !no_wire && !nothing_behind ==> alg != Alg::Cap && (alg == Alg::ZeroC2
                <==> negligible(c2, c1))
        }),
{
}

/// A driver whose delay does not depend on its load has no resistance, and so drives whatever it is
/// given as one capacitance.
pub proof fn lemma_load_independent_driver(model: GateModelView, ln_vth: F64, slew: F64, c2: F64, c1: F64, rpi: F64)
    requires
        identities::finite(ln_vth),
        forall|a: F32, b: F32|
            match (
                #[trigger] model.gate_delay(slew.narrowed(), a),
                #[trigger] model.gate_delay(slew.narrowed(), b),
            ) {
                (Some((x, _)), Some((y, _))) => x == y && identities::single_finite(x),
                _ => true,
            },
    ensures
        dcalc::model_resistance(model, ln_vth, slew, c2, c1) matches Some(rd) ==> rd.nan() || (rd.zero()
            && dcalc::choose_algorithm(rd, c2, rpi, c1) == Alg::Cap),
{
    let cap1 = (c1 + c2).narrowed();
    let cap2 = (cap1.widened() + F64(dcalc::CAP_STEP)).narrowed();
    if let (Some((d1, _)), Some((d2, _))) = (
        model.gate_delay(slew.narrowed(), cap1),
        model.gate_delay(slew.narrowed(), cap2),
    ) {
        assert(d1 == d2);
        let diff = (d1 - d2).abs_value();
        reveal(F32::spec_add);
        reveal(F32::spec_neg);
        reveal(F32::abs_value);
        assert(diff == F32(0)) by {
            let n = d2.spec_neg();
            assert(n.magnitude() == d2.magnitude());
            assert(n.value() == -d2.value());
        }
        reveal(F32::widened);
        assert(diff.widened().zero());
        reveal(F64::spec_neg);
        reveal(F64::spec_mul);
        let top = -ln_vth * diff.widened();
        assert(top.zero());
        reveal(F64::spec_euclidean_or_real_div);
        let r = top / (cap2 - cap1).widened();
        assert(r.nan() || r.zero());
        reveal(F64::narrowed);
        let rd = r.narrowed().widened();
        if r.zero() {
            assert(rd.zero());
        } else {
            assert(rd.nan());
        }
        reveal(F64::is_lt);
    }
}

/// The driver crosses the lower threshold before the delay threshold by the part of its slew that
/// lies between them, and its slew is the table's, derated: exactly so on whole numbers.
pub proof fn lemma_lower_threshold_is_crossed_first(
    d: DmpView,
    ceff: F64,
    t: F32,
    s: F32,
    at: int,
    slew: int,
    derate: int,
    vth: int,
    vl: int,
    vh: int,
    part: int,
)
    requires
        d.model.gate_delay(d.in_slew.narrowed(), ceff.narrowed()) == Some((t, s)),
        whole::single_whole(t, at),
        whole::single_whole(s, slew),
        whole::whole(d.slew_derate, derate),
        whole::whole(d.vth, vth),
        whole::whole(d.vl, vl),
        whole::whole(d.vh, vh),
        vl != vh,
        slew * derate * (vth - vl) == part * (vh - vl),
        whole::few_bits(slew * derate),
        whole::few_bits(vth - vl),
        whole::few_bits(vh - vl),
        whole::few_bits(slew * derate * (vth - vl)),
        whole::few_bits(part),
        whole::few_bits(at - part),
    ensures
        d.gate_delays(ceff) matches Some((t_vth, t_vl, x)) && whole::whole(t_vth, at) && whole::whole(t_vl, at - part)
            && whole::whole(x, slew * derate),
{
    whole::lemma_widened(t, at);
    whole::lemma_widened(s, slew);
    let x = s.widened() * d.slew_derate;
    whole::lemma_product(s.widened(), slew, d.slew_derate, derate);
    whole::lemma_difference(d.vth, vth, d.vl, vl);
    whole::lemma_difference(d.vh, vh, d.vl, vl);
    whole::lemma_product(x, slew * derate, d.vth - d.vl, vth - vl);
    let y = x * (d.vth - d.vl);
    whole::lemma_quotient(y, d.vh - d.vl, vh - vl, part);
    whole::lemma_difference(t.widened(), at, y / (d.vh - d.vl), part);
}

/// So long after its start that its exponential is gone.
pub open spec fn long_after(t: F64, tau: F64) -> bool {
    (-t / tau).is_lt(F64(EXP2_FLOOR))
}

/// The response of a driver to a ramp is nothing before the ramp starts.
pub proof fn lemma_no_response_before_the_ramp(d: DmpView, t: F64, t0: F64, dt: F64, cl: F64)
    requires
        (t - t0).is_le(F64(0)),
    ensures
        d.y(t, t0, dt, cl) == F64(0),
{
}

pub(crate) proof fn lemma_late_ramp(d: DmpView, t: F64, cl: F64, n: int, tau: int)
    requires
        whole::whole(t, n),
        whole::whole(d.rd * cl, tau),
        whole::few_bits(tau),
        whole::few_bits(n - tau),
        long_after(t, d.rd * cl),
    ensures
        whole::whole(d.y0(t, cl), n - tau),
{
    lemma_one_less_nothing();
    whole::lemma_one_is_whole();
    let one = F64(ONE) - F64(0);
    assert(d.y0(t, cl) == t - d.rd * cl * one);
    whole::lemma_product(d.rd * cl, tau, one, 1);
    whole::lemma_difference(t, n, d.rd * cl * one, tau);
}

proof fn lemma_one_less_nothing()
    ensures
        F64(ONE) - F64(0) == F64(ONE),
        whole::whole(F64(ONE) - F64(0), 1),
{
    identities::lemma_rest(F64(0));
    whole::lemma_one_is_whole();
}

/// The response of a driver to a ramp ends at the full swing: long after the ramp it is 1, exactly so
/// on whole numbers.
pub proof fn lemma_response_ends_at_full_swing(
    d: DmpView,
    t: F64,
    t0: F64,
    dt: F64,
    cl: F64,
    n: int,
    n0: int,
    ramp: int,
    tau: int,
)
    requires
        whole::whole(t, n),
        whole::whole(t0, n0),
        whole::whole(dt, ramp),
        whole::whole(d.rd * cl, tau),
        whole::few_bits(tau),
        whole::few_bits(n - n0),
        whole::few_bits(n - n0 - ramp),
        whole::few_bits(n - n0 - tau),
        whole::few_bits(n - n0 - ramp - tau),
        whole::few_bits(ramp),
        0 < ramp < n - n0,
        long_after(t - t0, d.rd * cl),
        long_after(t - t0 - dt, d.rd * cl),
    ensures
        whole::whole(d.y(t, t0, dt, cl), 1),
{
    let t1 = t - t0;
    let m = n - n0;
    whole::lemma_difference(t, n, t0, n0);
    whole::lemma_difference(t1, m, dt, ramp);
    whole::lemma_zero_is_whole(F64(0));
    whole::lemma_above(t1, m, F64(0), 0);
    whole::lemma_above(t1, m, dt, ramp);
    lemma_late_ramp(d, t1, cl, m, tau);
    lemma_late_ramp(d, t1 - dt, cl, m - ramp, tau);
    let (a, b) = (d.y0(t1, cl), d.y0(t1 - dt, cl));
    whole::lemma_difference(a, m - tau, b, m - ramp - tau);
    assert(1 * ramp == ramp);
    whole::lemma_quotient(a - b, dt, ramp, 1);
}

/// With no near capacitance the driver waveform starts from nothing.
pub proof fn lemma_zero_c2_starts_from_nothing(s: DmpView)
    requires
        s.alg is ZeroC2,
        ({
            let d = dcalc::with_zero_c2(s);
            identities::finite(d.k0) && identities::finite(d.k1) && identities::finite(d.k2) && identities::finite(
                d.p1,
            )
        }),
    ensures
        dcalc::with_zero_c2(s).v0(F64(0)).0.zero(),
{
    let d = dcalc::with_zero_c2(s);
    reveal(F64::spec_mul);
    reveal(F64::spec_neg);
    let rate = -d.p1 * F64(0);
    assert(rate.zero());
    lemma_no_time_has_passed(rate);
    identities::lemma_times(F64(ONE), d.k3);
    lemma_times_one(d.k3);
    let k = d.k1 + d.k2 * F64(0);
    identities::lemma_plus_zero(d.k1, d.k2 * F64(0));
    assert(d.k3 == -d.k1);
    assert(d.k3.magnitude() == d.k1.magnitude() && d.k3.negative() != d.k1.negative());
    assert(d.k3.value() == -d.k1.value()) by {
        assert(d.k3.units() == d.k1.units());
    }
    identities::lemma_units_positive(d.k1);
    identities::lemma_units_positive(k);
    assert(k.value() == d.k1.value());
    assert(identities::finite(k) && identities::finite(d.k3));
    lemma_opposites(k, d.k3);
    assert(dcalc::fast_exp(rate) == F64(ONE));
    assert(d.v0(F64(0)).0 == d.k0 * (k + d.k3 * F64(ONE)));
}

/// Opposite numbers come to nothing.
proof fn lemma_opposites(a: F64, b: F64)
    requires
        identities::finite(a),
        identities::finite(b),
        a.value() == -b.value(),
    ensures
        (a + b).zero(),
{
    reveal(F64::spec_add);
}

pub(crate) proof fn lemma_times_one(x: F64)
    requires
        identities::finite(x),
    ensures
        x * F64(ONE) == x,
{
    identities::lemma_times(F64(ONE), x);
    lemma_product_commutes(x, F64(ONE));
}

/// A product does not depend on the order of its factors.
proof fn lemma_product_commutes(a: F64, b: F64)
    ensures
        a * b == b * a,
{
    reveal(F64::spec_mul);
    assert(a.units() * b.units() == b.units() * a.units()) by (nonlinear_arith);
}

/// The exponential of nothing is one.
pub(crate) proof fn lemma_no_time_has_passed(x: F64)
    requires
        x.zero(),
    ensures
        dcalc::fast_exp(x) == F64(ONE),
{
    reveal(F64::is_lt);
    reveal(F64::spec_euclidean_or_real_div);
    let q = x / F64(dcalc::EXP2_STEPS);
    assert(q.zero());
    reveal(F64::spec_neg);
    identities::lemma_rest(q.spec_neg());
    assert(q.spec_neg().spec_neg() == q);
    let y = F64(ONE) + q;
    assert(y == F64(ONE));
    lemma_squares_of_one(12);
}

proof fn lemma_squares_of_one(n: nat)
    ensures
        dcalc::squared(F64(ONE), n) == F64(ONE),
    decreases n,
{
    if n > 0 {
        identities::lemma_times(F64(ONE), F64(ONE));
        lemma_squares_of_one((n - 1) as nat);
    }
}

/// Where a root is found, it is an end of the bracket at which the function is nothing, or the last
/// move to it was no longer than the tolerance: a Newton step from a point, or half of a bracket.
pub open spec fn arrived(g: spec_fn(F64) -> (F64, F64), root: F64, x_tol: F64) -> bool {
    ||| g(root).0.is_eq(F64(0))
    ||| exists|p: F64, step: F64|
        {
            &&& #[trigger] moved(p, step, root)
            &&& step.abs_value().is_le(x_tol * root.abs_value())
            &&& root == p - step ==> step == g(p).0 / g(p).1 || root == p + step
            &&& root == p + step ==> halved(p, step) || root == p - step
        }
}

/// A point reached by a step, either way.
pub open spec fn moved(p: F64, step: F64, root: F64) -> bool {
    root == p + step || root == p - step
}

/// A step of half the way to another point.
pub open spec fn halved(p: F64, step: F64) -> bool {
    exists|q: F64| step == #[trigger] (q - p) * F64(HALF)
}

proof fn lemma_search_arrives(
    g: spec_fn(F64) -> (F64, F64),
    x1: F64,
    x2: F64,
    root: F64,
    dx_prev: F64,
    dx: F64,
    v: (F64, F64),
    x_tol: F64,
    n: nat,
)
    requires
        v == g(root),
    ensures
        ({
            let (r, failed) = dcalc::root_search(g, x1, x2, root, dx_prev, dx, v, x_tol, n);
            !failed ==> arrived(g, r, x_tol)
        }),
    decreases n,
{
    if n > 0 {
        let (y, dy) = v;
        let bisect = F64(0).is_lt(((root - x2) * dy - y) * ((root - x1) * dy - y)) || (dx_prev
            * dy).abs_value().is_lt((F64(TWO) * y).abs_value());
        let step = if bisect {
            (x2 - x1) * F64(HALF)
        } else {
            y / dy
        };
        let next = if bisect {
            x1 + step
        } else {
            root - step
        };
        if step.abs_value().is_le(x_tol * next.abs_value()) {
            if bisect {
                assert(moved(x1, step, next));
                assert(halved(x1, step)) by {
                    assert(step == (x2 - x1) * F64(HALF));
                }
            } else {
                assert(moved(root, step, next));
            }
        } else {
            let w = g(next);
            if w.0.is_lt(F64(0)) {
                lemma_search_arrives(g, next, x2, next, dx, step, w, x_tol, (n - 1) as nat);
            } else {
                lemma_search_arrives(g, x1, next, next, dx, step, w, x_tol, (n - 1) as nat);
            }
        }
    }
}

/// A root that is found is one, to within the tolerance.
pub proof fn lemma_root_is_arrived_at(g: spec_fn(F64) -> (F64, F64), x1: F64, x2: F64, x_tol: F64, max_iter: int)
    ensures
        ({
            let (r, failed) = dcalc::root_of(g, x1, x2, x_tol, max_iter);
            !failed ==> arrived(g, r, x_tol)
        }),
{
    let (y1, y2) = (g(x1).0, g(x2).0);
    let zero = F64(0);
    if (zero.is_lt(y1) && zero.is_lt(y2)) || (y1.is_lt(zero) && y2.is_lt(zero)) {
    } else if y1.is_eq(zero) {
    } else if y2.is_eq(zero) {
    } else {
        let (lo, hi) = if zero.is_lt(y1) {
            (x2, x1)
        } else {
            (x1, x2)
        };
        let root = (lo + hi) * F64(HALF);
        let width = (hi - lo).abs_value();
        let n = if max_iter > 0 {
            max_iter as nat
        } else {
            0
        };
        lemma_search_arrives(g, lo, hi, root, width, width, g(root), x_tol, n);
    }
}

} // verus!
