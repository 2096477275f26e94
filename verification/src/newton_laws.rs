//! The equations that a driver's ramp and effective capacitance are solved from: what they are zero
//! at, and that their derivatives are the changes that they foretell.

use vstd::prelude::*;
use vstd::arithmetic::power2::{lemma2_to64, pow2};
use crate::dcalc;
use crate::dcalc::{DmpView, Equations, Params, CEFF_TIME_FACTOR, ONE, TWO};
use crate::dmp_laws;
use crate::float64::F64;
use crate::identities;
use crate::waveform_laws;
use crate::whole;

verus! {

/// A difference of equal numbers is nothing.
proof fn lemma_residual(a: F64, b: F64)
    requires
        identities::finite(a),
        identities::finite(b),
    ensures
        a.value() == b.value() ==> (a - b).zero(),
{
    reveal(F64::spec_add);
    reveal(F64::spec_neg);
    assert(b.spec_neg().magnitude() == b.magnitude());
    identities::lemma_units_positive(b);
}

/// The load at which the table is read for the equations.
pub open spec fn read_at(d: DmpView, x: Params) -> F64 {
    if d.alg is Pi {
        x.ceff
    } else {
        d.ceff
    }
}

/// The equations are zero at a ramp whose response passes the lower and the delay threshold at the
/// times that the table gives, each threshold at its own time.
pub proof fn lemma_equations_are_met_at_the_table(
    d: DmpView,
    x: Params,
    e: Equations,
    t_vth: F64,
    t_vl: F64,
    slew: F64,
)
    requires
        d.alg is Pi || d.alg is ZeroC2,
        d.equations(x) == Some(Ok::<Equations, Seq<char>>(e)),
        d.gate_delays(read_at(d, x)) == Some((t_vth, t_vl, slew)),
        identities::finite(d.vth),
        identities::finite(d.vl),
        identities::finite(d.y(t_vth, x.t0, e.at.dt, read_at(d, x))),
        identities::finite(d.y(t_vl, x.t0, e.at.dt, read_at(d, x))),
    ensures
        d.y(t_vth, x.t0, e.at.dt, read_at(d, x)).value() == d.vth.value() ==> e.y50.zero(),
        d.y(t_vl, x.t0, e.at.dt, read_at(d, x)).value() == d.vl.value() ==> e.y20.zero(),
        x.dt.is_le(F64(0)) || e.at.dt == x.dt,
        d.alg is Pi ==> e.at == x,
{
    lemma_residual(d.y(t_vth, x.t0, e.at.dt, read_at(d, x)), d.vth);
    lemma_residual(d.y(t_vl, x.t0, e.at.dt, read_at(d, x)), d.vl);
}

/// The charges of a pi load are compared over the whole of the table's ramp, but over no more than the
/// ramp sought and a part of it.
pub proof fn lemma_charges_are_compared_over_the_ramp(
    d: DmpView,
    x: Params,
    e: Equations,
    t_vth: F64,
    t_vl: F64,
    slew: F64,
)
    requires
        d.alg is Pi,
        d.equations(x) == Some(Ok::<Equations, Seq<char>>(e)),
        d.gate_delays(x.ceff) == Some((t_vth, t_vl, slew)),
    ensures
        ({
            let ramp = slew / (d.vh - d.vl);
            let most = F64(CEFF_TIME_FACTOR) * x.dt;
            &&& ramp.is_lt(most) ==> e.ipi == d.ipi_iceff(x.dt, ramp, x.ceff)
            &&& most.is_lt(ramp) ==> e.ipi == d.ipi_iceff(x.dt, most, x.ceff)
        }),
{
    reveal(F64::is_lt);
}

proof fn lemma_in_the_ramp(d: DmpView, t: F64, t0: F64, dt: F64, cl: F64, n: int, tau: int, w: nat)
    requires
        whole::whole(t - t0, n),
        whole::multiple(dt, 1, 1074 + w),
        whole::whole(d.rd * cl, tau),
        waveform_laws::small(n),
        waveform_laws::small(tau),
        n > 0,
        w <= 20,
        (t - t0).is_le(dt),
        dmp_laws::long_after(t - t0, d.rd * cl),
    ensures
        whole::whole(d.y0(t - t0, cl), n - tau),
        d.y(t, t0, dt, cl) == d.y0(t - t0, cl) / dt,
        whole::multiple(d.y(t, t0, dt, cl), n - tau, (1074 - w) as nat),
{
    let t1 = t - t0;
    whole::lemma_zero_is_whole(F64(0));
    whole::lemma_above(t1, n, F64(0), 0);
    dmp_laws::lemma_late_ramp(d, t1, cl, n, tau);
    assert((n - tau) * 1 == n - tau);
    whole::lemma_multiple_quotient(d.y0(t1, cl), 1074, dt, 1, 1074 + w, n - tau);
}

/// The derivatives of a driver's response during its ramp, once its exponential is gone: by how much
/// the output falls if the ramp starts one later, and if the load is one more, and how it shrinks with
/// a longer ramp.
pub proof fn lemma_derivatives_foretell_the_response(
    d: DmpView,
    t: F64,
    t0: F64,
    later: F64,
    dt: F64,
    cl: F64,
    more: F64,
    n: int,
    tau: int,
    r: int,
    w: nat,
)
    requires
        whole::whole(t - t0, n),
        whole::whole(t - later, n - 1),
        whole::multiple(dt, 1, 1074 + w),
        whole::whole(d.rd, r),
        whole::whole(d.rd * cl, tau),
        whole::whole(d.rd * more, tau + r),
        waveform_laws::small(n),
        waveform_laws::small(tau),
        waveform_laws::small(r),
        waveform_laws::small(tau + r),
        n > 1,
        w <= 20,
        (t - t0).is_le(dt),
        (t - later).is_le(dt),
        dmp_laws::long_after(t - t0, d.rd * cl),
        dmp_laws::long_after(t - later, d.rd * cl),
        dmp_laws::long_after(t - t0, d.rd * more),
        identities::finite(F64(ONE) + (t - t0) / (d.rd * cl)),
    ensures
        ({
            let by = d.dy(t, t0, dt, cl);
            let y = d.y(t, t0, dt, cl).value();
            &&& by.t0.value() == d.y(t, later, dt, cl).value() - y
            &&& by.ceff.value() == d.y(t, t0, dt, more).value() - y
            &&& (by.dt * dt).value() == -y
        }),
{
    let t1 = t - t0;
    let (zero, one) = (F64(0), F64(ONE));
    let (jw, jd) = ((1074 - w) as nat, 1074 + w);
    lemma_in_the_ramp(d, t, t0, dt, cl, n, tau, w);
    lemma_in_the_ramp(d, t, later, dt, cl, n - 1, tau, w);
    lemma_in_the_ramp(d, t, t0, dt, more, n, tau + r, w);
    whole::lemma_zero_is_whole(zero);
    whole::lemma_above(t1, n, zero, 0);
    let by = d.dy(t, t0, dt, cl);
    // By the start.
    identities::lemma_rest(zero);
    whole::lemma_one_is_whole();
    assert(d.y0dt(t1, cl) == one);
    whole::lemma_negated(one, 1);
    assert((-1int) * 1 == -1);
    whole::lemma_multiple_quotient(one.spec_neg(), 1074, dt, 1, jd, -1);
    assert(by.t0 == one.spec_neg() / dt);
    // By the load.
    let part = (one + t1 / (d.rd * cl)) * zero;
    assert(part.zero()) by {
        reveal(F64::spec_mul);
    }
    whole::lemma_zero_is_whole(part);
    whole::lemma_difference(part, 0, one, 1);
    assert(r * (-1) == -r);
    whole::lemma_product(d.rd, r, part - one, -1);
    assert(d.y0dcl(t1, cl) == d.rd * (part - one));
    assert((-r) * 1 == -r);
    whole::lemma_multiple_quotient(d.y0dcl(t1, cl), 1074, dt, 1, jd, -r);
    // By the ramp's time.
    whole::lemma_multiple_product(dt, 1, jd, dt, 1, jd);
    let y0 = d.y0(t1, cl);
    let m = n - tau;
    whole::lemma_negated(y0, m);
    assert((-m) * 1 == -m);
    whole::lemma_multiple_quotient(y0.spec_neg(), 1074, dt * dt, 1, 1074 + 2 * w, -m);
    let jq = (1074 - 2 * w) as nat;
    assert(whole::multiple(by.dt, -m, jq));
    whole::lemma_multiple_product(by.dt, -m, jq, dt, 1, jd);
    let u = pow2(jw);
    assert((n - 1 - tau) * u - m * u == (-1int) * u) by (nonlinear_arith)
        requires
            m == n - tau,
    ;
    assert((n - (tau + r)) * u - m * u == (-r) * u) by (nonlinear_arith)
        requires
            m == n - tau,
    ;
    assert((-m) * u == -(m * u)) by (nonlinear_arith);
}

/// Once a driver's output has settled after its ramp, neither a later start nor another load moves it.
pub proof fn lemma_a_settled_output_stays(d: DmpView, t: F64, t0: F64, dt: F64, cl: F64, n: int, ramp: int, r: int)
    requires
        whole::whole(t - t0, n),
        whole::whole(dt, ramp),
        whole::whole(d.rd, r),
        waveform_laws::small(n),
        waveform_laws::small(r),
        0 < ramp < n,
        dmp_laws::long_after(t - t0, d.rd * cl),
        dmp_laws::long_after(t - t0 - dt, d.rd * cl),
        identities::finite(F64(ONE) + (t - t0) / (d.rd * cl)),
        identities::finite(F64(ONE) + (t - t0 - dt) / (d.rd * cl)),
    ensures
        whole::whole(d.dy(t, t0, dt, cl).t0, 0),
        whole::whole(d.dy(t, t0, dt, cl).ceff, 0),
{
    let t1 = t - t0;
    let (zero, one) = (F64(0), F64(ONE));
    whole::lemma_zero_is_whole(zero);
    whole::lemma_above(t1, n, zero, 0);
    whole::lemma_above(t1, n, dt, ramp);
    identities::lemma_rest(zero);
    whole::lemma_one_is_whole();
    whole::lemma_difference(one, 1, one, 1);
    whole::lemma_negated(one - one, 0);
    assert(0 * ramp == 0);
    whole::lemma_quotient((one - one).spec_neg(), dt, ramp, 0);
    let (a, b) = ((one + t1 / (d.rd * cl)) * zero, (one + (t1 - dt) / (d.rd * cl)) * zero);
    assert(a.zero() && b.zero()) by {
        reveal(F64::spec_mul);
    }
    whole::lemma_zero_is_whole(a);
    whole::lemma_zero_is_whole(b);
    whole::lemma_difference(a, 0, one, 1);
    whole::lemma_difference(b, 0, one, 1);
    assert(r * (-1) == -r);
    whole::lemma_product(d.rd, r, a - one, -1);
    whole::lemma_product(d.rd, r, b - one, -1);
    let (u, v) = (d.y0dcl(t1, cl), d.y0dcl(t1 - dt, cl));
    assert(u == d.rd * (a - one) && v == d.rd * (b - one));
    whole::lemma_difference(u, -r, v, -r);
    whole::lemma_quotient(u - v, dt, ramp, 0);
}

proof fn lemma_gone_part(k: F64)
    requires
        identities::finite(k),
    ensures
        whole::whole(k * F64(0), 0),
{
    reveal(F64::spec_mul);
    whole::lemma_zero_is_whole(k * F64(0));
}

/// What a pole still holds, twice and taken away, once its exponential is gone.
proof fn lemma_held(k: F64, dt: F64, part: F64, n: int)
    requires
        identities::finite(k * dt),
        whole::whole(part, n),
        waveform_laws::small(n),
    ensures
        whole::whole(k * dt * F64(0) - F64(TWO) * part * (F64(ONE) - F64(0)), -2 * n),
{
    identities::lemma_rest(F64(0));
    whole::lemma_one_is_whole();
    whole::lemma_two_is_whole();
    lemma_gone_part(k * dt);
    whole::lemma_product(F64(TWO), 2, part, n);
    assert((2 * n) * 1 == 2 * n);
    whole::lemma_product(F64(TWO) * part, 2 * n, F64(ONE), 1);
    whole::lemma_difference(k * dt * F64(0), 0, F64(TWO) * part * F64(ONE), 2 * n);
}

/// How the charges' balance moves once every exponential is gone. With the ramp's time `n` and the
/// time constant `tau` the mismatch is `a * n + b + e - tau * n + tau * tau` over the driver's
/// resistance times `n * n`: these are its derivatives by the ramp's time and by the capacitance.
pub proof fn lemma_balance_derivatives(
    d: DmpView,
    x: Params,
    eq: Equations,
    a: int,
    b: int,
    e: int,
    tau: int,
    w: nat,
    s: nat,
)
    requires
        d.alg is Pi,
        d.equations(x) == Some(Ok::<Equations, Seq<char>>(eq)),
        whole::whole(d.a, a),
        whole::whole(d.b / d.p1, b),
        whole::whole(d.d / d.p2, e),
        whole::whole(d.rd * x.ceff, tau),
        whole::multiple(x.dt, 1, 1074 + w),
        whole::multiple(d.rd, 1, 1074 + s),
        w <= 9,
        s <= 9,
        waveform_laws::small(a),
        waveform_laws::small(b),
        waveform_laws::small(e),
        waveform_laws::small(tau),
        waveform_laws::gone(d.p1, x.dt),
        waveform_laws::gone(d.p2, x.dt),
        dmp_laws::long_after(x.dt, d.rd * x.ceff),
        identities::finite(d.b * x.dt),
        identities::finite(d.d * x.dt),
    ensures
        ({
            let n = pow2(w) as int;
            &&& whole::multiple(
                eq.ipi_by.dt,
                -(a * n) - 2 * b - 2 * e + tau * (n - 2 * tau),
                (1074 - s - 3 * w) as nat,
            )
            &&& whole::multiple(eq.ipi_by.ceff, 2 * tau - n, (1074 - 2 * w) as nat)
        }),
{
    let (zero, one, two) = (F64(0), F64(ONE), F64(TWO));
    let (dt, rc) = (x.dt, d.rd * x.ceff);
    let n = pow2(w) as int;
    lemma_power_is_small(w);
    assert(whole::whole(dt, n)) by {
        vstd::arithmetic::power2::lemma_pow2_adds(1074, w);
        assert(1 * pow2(1074 + w) == n * pow2(1074)) by (nonlinear_arith)
            requires
                pow2(1074 + w) == pow2(1074) * n,
        ;
    }
    identities::lemma_rest(zero);
    whole::lemma_one_is_whole();
    whole::lemma_two_is_whole();
    assert(dcalc::fast_exp(-d.p1 * dt) == zero);
    assert(dcalc::fast_exp(-d.p2 * dt) == zero);
    assert(dcalc::fast_exp(-dt / rc) == zero);
    // The share of the ramp, and what the poles hold.
    waveform_laws::lemma_small_product(a, n);
    whole::lemma_negated(d.a, a);
    assert((-a) * n == -(a * n)) by (nonlinear_arith);
    whole::lemma_product(d.a.spec_neg(), -a, dt, n);
    lemma_held(d.b, dt, d.b / d.p1, b);
    lemma_held(d.d, dt, d.d / d.p2, e);
    let ta = d.a.spec_neg() * dt;
    let tb = d.b * dt * zero - two * (d.b / d.p1) * (one - zero);
    let td = d.d * dt * zero - two * (d.d / d.p2) * (one - zero);
    whole::lemma_sum(ta, -(a * n), tb, -2 * b);
    whole::lemma_sum(ta + tb, -(a * n) - 2 * b, td, -2 * e);
    // What the capacitance holds.
    whole::lemma_product(two, 2, rc, tau);
    assert((2 * tau) * 1 == 2 * tau);
    whole::lemma_product(two * rc, 2 * tau, one, 1);
    lemma_gone_part(dt);
    whole::lemma_sum(dt, n, dt * zero, 0);
    let inner = dt + dt * zero - two * rc * (one - zero);
    whole::lemma_difference(dt + dt * zero, n, two * rc * one, 2 * tau);
    let k = n - 2 * tau;
    assert(-0x40_0000 < tau * k < 0x40_0000) by (nonlinear_arith)
        requires
            -0x400 < tau < 0x400,
            -0x1000 < k < 0x1000,
    ;
    whole::lemma_product(rc, tau, inner, k);
    let m = -(a * n) - 2 * b - 2 * e + tau * k;
    let top = ta + tb + td + rc * inner;
    whole::lemma_sum(ta + tb + td, -(a * n) - 2 * b - 2 * e, rc * inner, tau * k);
    let jd = 1074 + w;
    whole::lemma_multiple_product(d.rd, 1, 1074 + s, dt, 1, jd);
    whole::lemma_multiple_product(d.rd * dt, 1, 1074 + s + w, dt, 1, jd);
    whole::lemma_multiple_product(d.rd * dt * dt, 1, 1074 + s + 2 * w, dt, 1, jd);
    assert(m * 1 == m);
    whole::lemma_multiple_quotient(top, 1074, d.rd * dt * dt * dt, 1, 1074 + s + 3 * w, m);
    assert(eq.ipi_by.dt == top / (d.rd * dt * dt * dt));
    // By the capacitance.
    whole::lemma_sum(two * rc, 2 * tau, dt, n);
    lemma_gone_part(two * rc + dt);
    whole::lemma_difference(two * rc, 2 * tau, dt, n);
    let q = 2 * tau - n;
    let rest = two * rc - dt - (two * rc + dt) * zero;
    whole::lemma_difference(two * rc - dt, q, (two * rc + dt) * zero, 0);
    whole::lemma_multiple_product(dt, 1, jd, dt, 1, jd);
    assert(q * 1 == q);
    whole::lemma_multiple_quotient(rest, 1074, dt * dt, 1, 1074 + 2 * w, q);
    assert(eq.ipi_by.ceff == rest / (dt * dt));
}

proof fn lemma_power_is_small(w: nat)
    requires
        w <= 9,
    ensures
        waveform_laws::small(pow2(w) as int),
        pow2(w) > 0,
{
    lemma2_to64();
}

} // verus!
