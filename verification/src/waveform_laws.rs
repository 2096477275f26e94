//! The waveforms of a driver with a pi load, on whole numbers, where every operation is exact: they
//! start from nothing, flat, and end at the full swing.

use vstd::prelude::*;
use vstd::arithmetic::power2::{lemma2_to64, lemma2_to64_rest, lemma_pow2_adds, lemma_pow2_pos, pow2};
use crate::dcalc;
use crate::dcalc::{DmpView, EXP2_FLOOR, ONE};
use crate::dmp_laws;
use crate::float64::F64;
use crate::identities;
use crate::whole;

verus! {

/// The whole numbers that a driver's coefficients are.
pub ghost struct Coefficients {
    pub k0: int,
    pub k1: int,
    pub k2: int,
    pub k3: int,
    pub k4: int,
    pub p1: int,
    pub p2: int,
}

/// The coefficients of a driver are these.
pub open spec fn has(d: DmpView, n: Coefficients) -> bool {
    &&& whole::whole(d.k0, n.k0)
    &&& whole::whole(d.k1, n.k1)
    &&& whole::whole(d.k2, n.k2)
    &&& whole::whole(d.k3, n.k3)
    &&& whole::whole(d.k4, n.k4)
    &&& whole::whole(d.p1, n.p1)
    &&& whole::whole(d.p2, n.p2)
}

/// A number of up to 10 bits.
pub open spec fn small(n: int) -> bool {
    -0x400 < n < 0x400
}

pub open spec fn all_small(n: Coefficients) -> bool {
    small(n.k0) && small(n.k1) && small(n.k2) && small(n.k3) && small(n.k4) && small(n.p1) && small(n.p2)
}

proof fn lemma_small(a: int, b: int)
    requires
        -0x40_0000 < a < 0x40_0000,
        small(b),
    ensures
        -0x1_0000_0000 < a * b < 0x1_0000_0000,
        whole::few_bits(a * b),
{
    assert(-0x1_0000_0000 < a * b < 0x1_0000_0000) by (nonlinear_arith)
        requires
            -0x40_0000 < a < 0x40_0000,
            -0x400 < b < 0x400,
    ;
}

pub(crate) proof fn lemma_small_product(a: int, b: int)
    requires
        small(a),
        small(b),
    ensures
        -0x10_0000 < a * b < 0x10_0000,
        whole::few_bits(a * b),
{
    assert(-0x10_0000 < a * b < 0x10_0000) by (nonlinear_arith)
        requires
            -0x400 < a < 0x400,
            -0x400 < b < 0x400,
    ;
}

/// A time so late that a pole's exponential is gone.
pub open spec fn gone(p: F64, t: F64) -> bool {
    (-p * t).is_lt(F64(EXP2_FLOOR))
}

proof fn lemma_nothing_left(k: F64, n: int)
    requires
        whole::whole(k, n),
    ensures
        whole::whole(k * F64(0), 0),
{
    whole::lemma_zero_is_whole(F64(0));
    assert(n * 0 == 0);
    whole::lemma_product(k, n, F64(0), 0);
}

/// Once the exponentials are gone a driver's response to a unit ramp is a ramp again.
proof fn lemma_late_unit_ramp(d: DmpView, n: Coefficients, t: F64, at: int)
    requires
        d.alg is Pi || d.alg is ZeroC2,
        has(d, n),
        all_small(n),
        whole::whole(t, at),
        small(at),
        gone(d.p1, t),
        d.alg is Pi ==> gone(d.p2, t),
    ensures
        whole::whole(d.v0(t).0, n.k0 * (n.k1 + n.k2 * at)),
        -0x1_0000_0000 < n.k0 * (n.k1 + n.k2 * at) < 0x1_0000_0000,
{
    let zero = F64(0);
    assert(dcalc::fast_exp(-d.p1 * t) == zero);
    lemma_small_product(n.k2, at);
    whole::lemma_product(d.k2, n.k2, t, at);
    whole::lemma_sum(d.k1, n.k1, d.k2 * t, n.k2 * at);
    let r = n.k1 + n.k2 * at;
    lemma_nothing_left(d.k3, n.k3);
    let a = d.k1 + d.k2 * t + d.k3 * zero;
    whole::lemma_sum(d.k1 + d.k2 * t, r, d.k3 * zero, 0);
    assert(n.k0 * r == r * n.k0) by (nonlinear_arith);
    lemma_small(r, n.k0);
    if d.alg is Pi {
        assert(dcalc::fast_exp(-d.p2 * t) == zero);
        lemma_nothing_left(d.k4, n.k4);
        whole::lemma_sum(a, r, d.k4 * zero, 0);
        whole::lemma_product(d.k0, n.k0, a + d.k4 * zero, r);
    } else {
        whole::lemma_product(d.k0, n.k0, a, r);
    }
}

/// Long after its ramp a driver's output stays at its full swing, the product of its first and third
/// coefficient.
pub proof fn lemma_driver_ends_at_full_swing(d: DmpView, n: Coefficients, t: F64, at: int, ramp: int)
    requires
        d.alg is Pi || d.alg is ZeroC2,
        has(d, n),
        all_small(n),
        whole::whole(t - d.t0, at),
        whole::whole(d.dt, ramp),
        small(at),
        0 < ramp < at,
        gone(d.p1, t - d.t0),
        gone(d.p1, t - d.t0 - d.dt),
        d.alg is Pi ==> gone(d.p2, t - d.t0) && gone(d.p2, t - d.t0 - d.dt),
    ensures
        whole::whole(d.waveform(false, t).0, n.k0 * n.k2),
{
    let t1 = t - d.t0;
    whole::lemma_zero_is_whole(F64(0));
    whole::lemma_above(t1, at, F64(0), 0);
    whole::lemma_above(t1, at, d.dt, ramp);
    whole::lemma_difference(t1, at, d.dt, ramp);
    lemma_late_unit_ramp(d, n, t1, at);
    lemma_late_unit_ramp(d, n, t1 - d.dt, at - ramp);
    let (a, b) = (n.k0 * (n.k1 + n.k2 * at), n.k0 * (n.k1 + n.k2 * (at - ramp)));
    let (u, w) = (d.v0(t1).0, d.v0(t1 - d.dt).0);
    whole::lemma_difference(u, a, w, b);
    assert(a - b == (n.k0 * n.k2) * ramp) by (nonlinear_arith)
        requires
            a == n.k0 * (n.k1 + n.k2 * at),
            b == n.k0 * (n.k1 + n.k2 * (at - ramp)),
    ;
    lemma_small_product(n.k0, n.k2);
    whole::lemma_quotient(u - w, d.dt, ramp, n.k0 * n.k2);
}

/// At its start a driver's response to a unit ramp is its first coefficient times what the constant
/// ones come to, and its slope is that times what the others come to.
pub proof fn lemma_driver_at_its_start(d: DmpView, n: Coefficients)
    requires
        d.alg is Pi,
        has(d, n),
        all_small(n),
    ensures
        whole::whole(d.v0(F64(0)).0, n.k0 * (n.k1 + n.k3 + n.k4)),
        whole::whole(d.v0(F64(0)).1, n.k0 * (n.k2 - n.k3 * n.p1 - n.k4 * n.p2)),
{
    let (zero, one) = (F64(0), F64(ONE));
    whole::lemma_one_is_whole();
    lemma_exponential_at_start(d.p1);
    lemma_exponential_at_start(d.p2);
    lemma_nothing_left(d.k2, n.k2);
    whole::lemma_sum(d.k1, n.k1, d.k2 * zero, 0);
    let a = d.k1 + d.k2 * zero;
    whole::lemma_product(d.k3, n.k3, one, 1);
    whole::lemma_sum(a, n.k1, d.k3 * one, n.k3);
    let b = a + d.k3 * one;
    whole::lemma_product(d.k4, n.k4, one, 1);
    whole::lemma_sum(b, n.k1 + n.k3, d.k4 * one, n.k4);
    let r = n.k1 + n.k3 + n.k4;
    lemma_small(r, n.k0);
    assert(n.k0 * r == r * n.k0) by (nonlinear_arith);
    whole::lemma_product(d.k0, n.k0, b + d.k4 * one, r);
    lemma_small_product(n.k3, n.p1);
    lemma_small_product(n.k4, n.p2);
    whole::lemma_product(d.k3, n.k3, d.p1, n.p1);
    whole::lemma_product(d.k3 * d.p1, n.k3 * n.p1, one, 1);
    assert(n.k3 * n.p1 * 1 == n.k3 * n.p1);
    whole::lemma_product(d.k4, n.k4, d.p2, n.p2);
    whole::lemma_product(d.k4 * d.p2, n.k4 * n.p2, one, 1);
    assert(n.k4 * n.p2 * 1 == n.k4 * n.p2);
    let e = d.k2 - d.k3 * d.p1 * one;
    whole::lemma_difference(d.k2, n.k2, d.k3 * d.p1 * one, n.k3 * n.p1);
    whole::lemma_difference(e, n.k2 - n.k3 * n.p1, d.k4 * d.p2 * one, n.k4 * n.p2);
    let q = n.k2 - n.k3 * n.p1 - n.k4 * n.p2;
    lemma_small(q, n.k0);
    assert(n.k0 * q == q * n.k0) by (nonlinear_arith);
    whole::lemma_product(d.k0, n.k0, e - d.k4 * d.p2 * one, q);
}

proof fn lemma_exponential_at_start(p: F64)
    requires
        identities::finite(p),
    ensures
        dcalc::fast_exp(-p * F64(0)) == F64(ONE),
{
    reveal(F64::spec_mul);
    reveal(F64::spec_neg);
    dmp_laws::lemma_no_time_has_passed(-p * F64(0));
}

/// The waveform of a driver of a pi load starts from nothing: exactly so where its second and last
/// coefficients are small multiples of one power of two.
pub proof fn lemma_pi_starts_from_nothing(s: DmpView, k1: int, k4: int, j: nat)
    requires
        s.alg is Pi,
        ({
            let d = dcalc::with_pi(s);
            &&& whole::multiple(d.k1, k1, j)
            &&& whole::multiple(d.k4, k4, j)
            &&& identities::finite(d.k0)
            &&& identities::finite(d.k2)
            &&& identities::finite(d.p1)
            &&& identities::finite(d.p2)
        }),
        whole::few_bits(k1),
        whole::few_bits(k4),
        whole::few_bits(k1 + k4),
        j <= 1150,
    ensures
        dcalc::with_pi(s).v0(F64(0)).0.zero(),
{
    let d = dcalc::with_pi(s);
    let (zero, one) = (F64(0), F64(ONE));
    lemma_exponential_at_start(d.p1);
    lemma_exponential_at_start(d.p2);
    lemma_times_nothing(d.k2);
    whole::lemma_multiple_negated(d.k1, k1, j);
    whole::lemma_multiple_negated(d.k4, k4, j);
    whole::lemma_multiple_sum(-d.k1, -k1, -d.k4, -k4, j);
    assert(d.k3 == -d.k1 - d.k4);
    let r = d.k2 * zero;
    assert(r.zero()) by {
        reveal(F64::spec_mul);
    }
    whole::lemma_multiple_zero(r, j);
    whole::lemma_multiple_sum(d.k1, k1, r, 0, j);
    dmp_laws::lemma_times_one(d.k3);
    dmp_laws::lemma_times_one(d.k4);
    whole::lemma_multiple_sum(d.k1 + r, k1, d.k3, -k1 - k4, j);
    let a = d.k1 + r + d.k3 * one;
    whole::lemma_multiple_sum(a, -k4, d.k4, k4, j);
    whole::lemma_multiple_nothing(a + d.k4 * one, j);
    reveal(F64::spec_mul);
}

/// Long after its ramp a load's voltage stays at the full swing.
pub proof fn lemma_load_ends_at_full_swing(d: DmpView, t: F64, at: int, ramp: int, lag: int)
    requires
        d.alg is Pi || d.alg is ZeroC2,
        whole::whole(d.k0 * (d.k1 - d.k2 / d.p3), lag),
        whole::whole(t - d.t0, at),
        whole::whole(d.dt, ramp),
        small(at),
        small(lag),
        0 < ramp < at,
        gone(d.p1, t - d.t0),
        gone(d.p1, t - d.t0 - d.dt),
        gone(d.p3, t - d.t0),
        gone(d.p3, t - d.t0 - d.dt),
        d.alg is Pi ==> gone(d.p2, t - d.t0) && gone(d.p2, t - d.t0 - d.dt),
        steady(d),
    ensures
        whole::whole(d.waveform(true, t).0, 1),
{
    let t1 = t - d.t0;
    whole::lemma_zero_is_whole(F64(0));
    whole::lemma_above(t1, at, F64(0), 0);
    whole::lemma_above(t1, at, d.dt, ramp);
    whole::lemma_difference(t1, at, d.dt, ramp);
    lemma_late_load_ramp(d, t1, at, lag);
    lemma_late_load_ramp(d, t1 - d.dt, at - ramp, lag);
    let (u, w) = (d.vl0(t1).0, d.vl0(t1 - d.dt).0);
    whole::lemma_difference(u, lag + at, w, lag + at - ramp);
    assert(1 * ramp == ramp);
    whole::lemma_quotient(u - w, d.dt, ramp, 1);
}

/// The coefficients of a load's exponentials are numbers.
pub open spec fn steady(d: DmpView) -> bool {
    let p3 = d.p3;
    let d3 = -p3 * d.k0 * d.k3 / (d.p1 - p3);
    let d4 = -p3 * d.k0 * d.k4 / (d.p2 - p3);
    let d5 = if d.alg is Pi {
        d.k0 * (d.k2 / p3 - d.k1 + p3 * d.k3 / (d.p1 - p3) + p3 * d.k4 / (d.p2 - p3))
    } else {
        d.k0 * (d.k2 / p3 - d.k1 + p3 * d.k3 / (d.p1 - p3))
    };
    &&& identities::finite(d3)
    &&& d.alg is Pi ==> identities::finite(d4)
    &&& identities::finite(d5)
}

proof fn lemma_times_nothing(k: F64)
    requires
        identities::finite(k),
    ensures
        whole::whole(k * F64(0), 0),
{
    reveal(F64::spec_mul);
    whole::lemma_zero_is_whole(k * F64(0));
}

/// Once the exponentials are gone a load's response to a unit ramp is the ramp, late by its lag.
proof fn lemma_late_load_ramp(d: DmpView, t: F64, at: int, lag: int)
    requires
        d.alg is Pi || d.alg is ZeroC2,
        whole::whole(d.k0 * (d.k1 - d.k2 / d.p3), lag),
        whole::whole(t, at),
        small(at),
        small(lag),
        gone(d.p1, t),
        gone(d.p3, t),
        d.alg is Pi ==> gone(d.p2, t),
        steady(d),
    ensures
        whole::whole(d.vl0(t).0, lag + at),
{
    let (zero, p3) = (F64(0), d.p3);
    let d1 = d.k0 * (d.k1 - d.k2 / p3);
    let d3 = -p3 * d.k0 * d.k3 / (d.p1 - p3);
    whole::lemma_sum(d1, lag, t, at);
    lemma_times_nothing(d3);
    whole::lemma_sum(d1 + t, lag + at, d3 * zero, 0);
    let a = d1 + t + d3 * zero;
    if d.alg is Pi {
        let d4 = -p3 * d.k0 * d.k4 / (d.p2 - p3);
        let d5 = d.k0 * (d.k2 / p3 - d.k1 + p3 * d.k3 / (d.p1 - p3) + p3 * d.k4 / (d.p2 - p3));
        lemma_times_nothing(d4);
        lemma_times_nothing(d5);
        whole::lemma_sum(a, lag + at, d4 * zero, 0);
        whole::lemma_sum(a + d4 * zero, lag + at, d5 * zero, 0);
    } else {
        let d5 = d.k0 * (d.k2 / p3 - d.k1 + p3 * d.k3 / (d.p1 - p3));
        lemma_times_nothing(d5);
        whole::lemma_sum(a, lag + at, d5 * zero, 0);
    }
}

/// The charges that a driver puts into its pi load and into the capacitance that stands for it, over
/// a time so long that every exponential is gone: into the pi the ramp's share and what its two poles
/// hold, into the capacitance the ramp's share less what its own time constant holds. Their
/// difference, as a mean current, is what the effective capacitance is solved for.
pub proof fn lemma_charges_balance(
    d: DmpView,
    dt: F64,
    time: F64,
    ceff: F64,
    a: int,
    b: int,
    e: int,
    tau: int,
    n: int,
    share: int,
    pi: int,
    cap: int,
)
    requires
        whole::whole(d.a, a),
        whole::whole(d.b / d.p1, b),
        whole::whole(d.d / d.p2, e),
        whole::whole(d.rd * ceff, tau),
        whole::whole(time, n),
        whole::whole(d.rd * time * dt, share),
        small(a),
        small(b),
        small(e),
        small(tau),
        small(n),
        share != 0,
        small(pi),
        small(cap),
        a * n + b + e == pi * share,
        tau * n - tau * tau == cap * share,
        gone(d.p1, time),
        gone(d.p2, time),
        (-time / (d.rd * ceff)).is_lt(F64(EXP2_FLOOR)),
    ensures
        whole::whole(d.ipi_iceff(dt, time, ceff), pi - cap),
{
    let (zero, one) = (F64(0), F64(ONE));
    identities::lemma_rest(zero);
    assert(one - zero == one);
    whole::lemma_one_is_whole();
    assert(dcalc::fast_exp(-d.p1 * time) == zero);
    assert(dcalc::fast_exp(-d.p2 * time) == zero);
    assert(dcalc::fast_exp(-time / (d.rd * ceff)) == zero);
    let full = one - zero;
    lemma_small_product(a, n);
    lemma_small_product(tau, n);
    lemma_small_product(tau, tau);
    whole::lemma_product(d.a, a, time, n);
    whole::lemma_product(d.b / d.p1, b, full, 1);
    whole::lemma_product(d.d / d.p2, e, full, 1);
    let x = d.a * time + (d.b / d.p1) * full;
    whole::lemma_sum(d.a * time, a * n, (d.b / d.p1) * full, b);
    whole::lemma_sum(x, a * n + b, (d.d / d.p2) * full, e);
    let into_pi = x + (d.d / d.p2) * full;
    whole::lemma_quotient(into_pi, d.rd * time * dt, share, pi);
    whole::lemma_product(d.rd * ceff, tau, time, n);
    whole::lemma_product(d.rd * ceff, tau, d.rd * ceff, tau);
    let hold = (d.rd * ceff) * (d.rd * ceff);
    whole::lemma_product(hold, tau * tau, full, 1);
    assert(tau * tau * 1 == tau * tau);
    let into_cap = d.rd * ceff * time - hold * full;
    whole::lemma_difference(d.rd * ceff * time, tau * n, hold * full, tau * tau);
    whole::lemma_quotient(into_cap, d.rd * time * dt, share, cap);
    whole::lemma_difference(into_pi / (d.rd * time * dt), pi, into_cap / (d.rd * time * dt), cap);
}

/// With no near capacitance a driver's output follows a ramp at its full swing, late by the time in
/// which its own resistance charges the whole load. The far capacitance and the wire's resistance are
/// powers of two here, and so is the resistance of both together, so that every operation is exact.
pub proof fn lemma_zero_c2_lags_by_its_resistance(s: DmpView, c: int, r: int, w: nat)
    requires
        -10 <= c <= 20,
        -10 <= r <= 20,
        w <= 20,
        whole::multiple(s.c1, 1, (1074 + c) as nat),
        whole::multiple(s.rpi, 1, (1074 + r) as nat),
        whole::multiple(s.rd, pow2(w) - 1, (1074 + r) as nat),
    ensures
        ({
            let d = dcalc::with_zero_c2(s);
            &&& (d.k0 * d.k1).value() == -(s.rd * s.c1).value()
            &&& whole::whole(d.k0 * d.k2, 1)
            &&& d.ceff == s.c1
        }),
{
    let d = dcalc::with_zero_c2(s);
    let one = F64(ONE);
    let m = pow2(w) as int;
    lemma2_to64();
    lemma2_to64_rest();
    lemma_pow2_pos(w);
    assert(m <= 0x10_0000) by {
        lemma_pow2_adds(w, (20 - w) as nat);
        lemma_pow2_pos((20 - w) as nat);
        assert(m <= m * pow2((20 - w) as nat)) by (nonlinear_arith)
            requires
                m > 0,
                pow2((20 - w) as nat) >= 1,
        ;
    }
    whole::lemma_one_is_whole();
    let (jc, jr) = ((1074 + c) as nat, (1074 + r) as nat);
    let (js, jz, jp) = (jr + w, (1074 - c - r) as nat, (1074 - c - r - w) as nat);
    // The zero, at the rate of the wire and its capacitance.
    whole::lemma_multiple_product(s.rpi, 1, jr, s.c1, 1, jc);
    whole::lemma_multiple_quotient(one, 1074, s.rpi * s.c1, 1, (1074 + c + r) as nat, 1);
    assert(whole::multiple(d.z1, 1, jz));
    // The pole, at the rate of both resistances.
    whole::lemma_multiple_sum(s.rd, m - 1, s.rpi, 1, jr);
    assert(1 * pow2(w) == m);
    whole::lemma_multiple_shifted(s.rd + s.rpi, 1, jr, w);
    whole::lemma_multiple_product(s.c1, 1, jc, s.rd + s.rpi, 1, js);
    whole::lemma_multiple_quotient(one, 1074, s.c1 * (s.rd + s.rpi), 1, (1074 + c + r + w) as nat, 1);
    assert(whole::multiple(d.p1, 1, jp));
    whole::lemma_multiple_quotient(d.p1, jp, d.z1, 1, jz, 1);
    let jk = (1074 - w) as nat;
    assert(whole::multiple(d.k0, 1, jk));
    whole::lemma_multiple_quotient(one, 1074, d.k0, 1, jk, 1);
    assert(whole::multiple(d.k2, 1, 1074 + w));
    whole::lemma_multiple_product(d.k0, 1, jk, d.k2, 1, 1074 + w);
    // The zero is the pole, counted as often as the power of two says.
    lemma_pow2_adds(jp, w);
    assert(whole::multiple(d.z1, m, jp)) by {
        assert(1 * pow2(jz) == m * pow2(jp)) by (nonlinear_arith)
            requires
                pow2(jz) == pow2(jp) * m,
        ;
    }
    whole::lemma_multiple_negated(d.z1, m, jp);
    whole::lemma_multiple_sum(d.p1, 1, d.z1.spec_neg(), -m, jp);
    assert(d.p1 - d.z1 == d.p1 + d.z1.spec_neg());
    whole::lemma_multiple_product(d.p1, 1, jp, d.p1, 1, jp);
    let jq = (1074 - 2 * (c + r + w)) as nat;
    assert((1 - m) * 1 == 1 - m);
    whole::lemma_multiple_quotient(d.p1 - d.z1, jp, d.p1 * d.p1, 1, jq, 1 - m);
    let jl = (1074 + c + r + w) as nat;
    assert(whole::multiple(d.k1, 1 - m, jl));
    assert(1 * (1 - m) == 1 - m);
    whole::lemma_multiple_product(d.k0, 1, jk, d.k1, 1 - m, jl);
    assert((m - 1) * 1 == m - 1);
    whole::lemma_multiple_product(s.rd, m - 1, jr, s.c1, 1, jc);
    let h = pow2((1074 + c + r) as nat);
    assert((1 - m) * h == -((m - 1) * h)) by (nonlinear_arith);
}

/// A driver's crossings are looked for up to the end of its ramp and twice the time after it in which
/// both resistances charge the whole load.
pub proof fn lemma_crossings_have_time(d: DmpView, t0: int, dt: int, near: int, far: int, rd: int, rpi: int)
    requires
        d.alg is Pi || d.alg is ZeroC2,
        d.alg is ZeroC2 ==> near == 0,
        whole::whole(d.t0, t0),
        whole::whole(d.dt, dt),
        whole::whole(d.c2, near),
        whole::whole(d.c1, far),
        whole::whole(d.rd, rd),
        whole::whole(d.rpi, rpi),
        small(t0),
        small(dt),
        small(near + far),
        small(far),
        small(rd + rpi),
    ensures
        whole::whole(d.crossing_upper_bound(), t0 + dt + 2 * ((near + far) * (rd + rpi))),
{
    whole::lemma_two_is_whole();
    whole::lemma_sum(d.t0, t0, d.dt, dt);
    whole::lemma_sum(d.c1, far, d.c2, near);
    whole::lemma_sum(d.rd, rd, d.rpi, rpi);
    let (load, r) = (near + far, rd + rpi);
    lemma_small_product(load, r);
    let k = load * r;
    let both = d.rd + d.rpi;
    let all = if d.alg is Pi {
        d.c1 + d.c2
    } else {
        d.c1
    };
    whole::lemma_product(all, load, both, r);
    assert(k * 2 == 2 * k);
    whole::lemma_product(all * both, k, F64(dcalc::TWO), 2);
    whole::lemma_sum(d.t0 + d.dt, t0 + dt, all * both * F64(dcalc::TWO), 2 * k);
}

} // verus!
