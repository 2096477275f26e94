//! What a gate delay and a wire delay are measured on: the table at the effective capacitance that
//! was solved for, and the times at which the driver and load waveforms cross the thresholds.

use vstd::prelude::*;
use vstd::arithmetic::power2::lemma_pow2_pos;
use vstd::arithmetic::power2::pow2;
use crate::dcalc::{Alg, DmpView, Equations, Params, DRIVER_PARAM_TOL, NEGLIGIBLE, TWO};
use crate::exact;
use crate::float32::F32;
use crate::float64::F64;
use crate::magnitude;
use crate::rounding;
use crate::whole;

verus! {

/// The delay of a gate is the table's at the effective capacitance that its state is left with, but
/// for the waveform's own of a driver with no near capacitance; its slew is the table's there
/// where no waveform was found.
pub proof fn lemma_delay_is_the_table_at_ceff(d: DmpView)
    ensures
        d.gate_result() matches Some((e, (delay, slew))) ==> (d.alg is ZeroC2 && e.driver_valid) || (
        d.model.gate_delay(d.in_slew.narrowed(), e.ceff.narrowed()) matches Some((t, s)) && delay == t.widened()
            && (!e.driver_valid || d.alg is Cap ==> slew == s.widened())),
{
}

/// A point at which the driver equations of a full pi were evaluated, and the last step from it:
/// within the pi's capacitance, on a ramp that takes time, and no longer than the tolerance.
pub open spec fn last_step(d: DmpView, at: Params, by: Params, end: Params) -> bool {
    let tol = F64(DRIVER_PARAM_TOL);
    &&& !at.ceff.is_lt(F64(0))
    &&& !(d.c1 + d.c2).is_lt(at.ceff)
    &&& !at.dt.is_le(F64(0))
    &&& by.t0.abs_value().is_le(at.t0.abs_value() * tol)
    &&& by.dt.abs_value().is_le(at.dt.abs_value() * tol)
    &&& by.ceff.abs_value().is_le(at.ceff.abs_value() * tol)
    &&& end.t0 == at.t0 + by.t0
    &&& end.dt == at.dt + by.dt
    &&& end.ceff == at.ceff + by.ceff
}

/// The driver equations are solved, from some point on, to these parameters.
pub open spec fn solved(d: DmpView, end: Params) -> bool {
    exists|at: Params, by: Params| #[trigger] last_step(d, at, by, end) && newton_move(d, at, by)
}

/// The step that the driver equations at a point ask for.
pub open spec fn newton_move(d: DmpView, at: Params, by: Params) -> bool {
    match d.equations(at) {
        Some(Ok(e)) => d.newton_step(e) == Ok::<Seq<F64>, Seq<char>>(seq![by.t0, by.dt, by.ceff]),
        _ => false,
    }
}

proof fn lemma_newton_solves(d: DmpView, x: Params, n: nat)
    requires
        d.alg is Pi,
    ensures
        d.newton(x, n) matches Some(Ok(end)) ==> solved(d, end),
    decreases n,
{
    if n > 0 {
        if let Some(Ok(e)) = d.equations(x) {
            if let Ok(p) = d.newton_step(e) {
                let by = Params { t0: p[0], dt: p[1], ceff: p[2] };
                let end = d.stepped(p, e.at);
                assert(p.len() == 3);
                assert(p =~= seq![by.t0, by.dt, by.ceff]);
                if d.settled(p, e.at) {
                    assert(newton_move(d, x, by));
                    assert(last_step(d, x, by, end));
                } else {
                    lemma_newton_solves(d, end, (n - 1) as nat);
                }
            }
        }
    }
}

/// The driver with its waveform not yet found.
pub open spec fn unsolved(d: DmpView) -> DmpView {
    DmpView { driver_valid: false, ..d }
}

/// A full pi is solved from its whole capacitance or, where that fails, from the near one. Where
/// either way succeeds the state holds the solution; where neither does, the effective capacitance
/// is the whole one and there is no driver waveform.
pub proof fn lemma_pi_is_solved_or_lumped(d: DmpView)
    requires
        d.alg is Pi,
    ensures
        d.gate_result() matches Some((e, _)) ==> {
            let end = Params { t0: e.t0, dt: e.dt, ceff: e.ceff };
            let s = unsolved(d);
            let (whole, near) = (s.driver_params(d.c2 + d.c1), s.driver_params(d.c2));
            &&& whole matches Some(Ok(x)) ==> end == x && solved(s, end)
            &&& whole matches Some(Err(_)) ==> (near matches Some(Ok(x)) ==> end == x && solved(s, end))
            &&& whole matches Some(Err(_)) ==> near is Some && (near->0 is Err ==> e.ceff == d.c1 + d.c2
                && !e.driver_valid && e.t0 == d.t0 && e.dt == d.dt)
            &&& whole is Some
            &&& e.driver_valid ==> solved(s, end)
        },
{
    let s = unsolved(d);
    lemma_first_guess(s, d.c2 + d.c1);
    lemma_first_guess(s, d.c2);
}

proof fn lemma_first_guess(d: DmpView, ceff: F64)
    requires
        d.alg is Pi,
    ensures
        d.driver_params(ceff) matches Some(Ok(end)) ==> solved(d, end),
{
    if let Some((t_vth, _, slew)) = d.gate_delays(ceff) {
        let dt = slew / (d.vh - d.vl);
        let t0 = t_vth + d.ln_rest * d.rd * ceff - d.vth * dt;
        lemma_newton_solves(d, Params { t0, dt, ceff }, crate::dcalc::NEWTON_RAPHSON_MAX_ITER as nat);
    }
}

/// The times at which a waveform crosses the delay threshold, before it the lower and after it the
/// upper.
pub open spec fn crosses(d: DmpView, at_load: bool, upper: F64, t: F64, low: F64, high: F64) -> bool {
    &&& d.crossing(at_load, d.vth, d.t0, upper) == Some(t)
    &&& d.crossing(at_load, d.vl, d.t0, t) == Some(low)
    &&& d.crossing(at_load, d.vh, t, upper) == Some(high)
}

/// Where a driver waveform was found, the driver's slew is the time it takes between the lower and
/// upper threshold, over the derate, and its waveform delay is the time it crosses the delay
/// threshold; with no near capacitance that is the delay of its arc too.
pub proof fn lemma_driver_slew_is_measured(d: DmpView)
    ensures
        d.gate_result() matches Some((e, (delay, slew))) ==> {
            &&& e.drvr_slew == slew
            &&& e.driver_valid && !(d.alg is Cap) ==> exists|t: F64, low: F64, high: F64|
                {
                    &&& #[trigger] crosses(e, false, e.crossing_upper_bound(), t, low, high)
                    &&& e.vo_delay == t
                    &&& slew == (high - low) / d.slew_derate
                    &&& d.alg is ZeroC2 ==> delay == t && e.ceff == d.c1
                }
        },
{
    if let Some((e, (delay, slew))) = d.gate_result() {
        if e.driver_valid && !(d.alg is Cap) {
            let upper = e.crossing_upper_bound();
            if d.alg is Pi {
                let s = unsolved(d);
                let x = Params { t0: e.t0, dt: e.dt, ceff: e.ceff };
                let f = s.with_params(x);
                assert(e.crossing_upper_bound() == f.crossing_upper_bound());
                lemma_same_crossings(f, e);
                let (t, low, high) = f.crossings(false, upper)->0;
                assert(crosses(e, false, upper, t, low, high));
            } else {
                let x = Params { t0: e.t0, dt: e.dt, ceff: e.ceff };
                let f = DmpView { ceff: d.c1, ..d.with_params(x) };
                assert(e.crossing_upper_bound() == f.crossing_upper_bound());
                lemma_same_crossings(f, e);
                let (t, low, high) = f.crossings(false, upper)->0;
                assert(crosses(e, false, upper, t, low, high));
            }
        }
    }
}

/// States of the same driver on the same ramp have the same driver waveform.
proof fn lemma_same_crossings(a: DmpView, b: DmpView)
    requires
        a == (DmpView { driver_valid: a.driver_valid, vo_delay: a.vo_delay, drvr_slew: a.drvr_slew, ..b }),
    ensures
        forall|at_load: bool, v: F64, lower: F64, upper: F64| #[trigger]
            a.crossing(at_load, v, lower, upper) == b.crossing(at_load, v, lower, upper),
        forall|at_load: bool, upper: F64| #[trigger] a.crossings(at_load, upper) == b.crossings(at_load, upper),
{
    assert forall|at_load: bool, v: F64, lower: F64, upper: F64| #[trigger]
        a.crossing(at_load, v, lower, upper) == b.crossing(at_load, v, lower, upper) by {
        assert(a.crossing_function(at_load, v) =~= b.crossing_function(at_load, v));
    }
}

/// The load waveform behind a wire of this Elmore delay was solved for, and crosses the thresholds
/// at these times.
pub open spec fn load_crosses(d: DmpView, elmore: F64, t: F64, low: F64, high: F64) -> bool {
    let s = DmpView { elmore, p3: F64(crate::dcalc::ONE) / elmore, ..d };
    crosses(s, true, s.crossing_upper_bound() + elmore * F64(TWO), t, low, high)
}

/// A wire matters: there is a driver waveform, and the Elmore delay is no less than a thousandth of
/// the driver's slew.
pub open spec fn wire_matters(d: DmpView, elmore: F64) -> bool {
    &&& !(d.alg is Cap)
    &&& d.driver_valid
    &&& !elmore.is_eq(F64(0))
    &&& !elmore.is_lt(d.drvr_slew * F64(NEGLIGIBLE))
}

/// The wire delay is the time from the driver's crossing of the delay threshold to the load's, where
/// that is not negative, and the load's slew the time between its lower and upper threshold over
/// the derate, where that is no less than the driver's.
pub proof fn lemma_wire_delay_is_measured(d: DmpView, elmore: F64, t: F64, low: F64, high: F64)
    requires
        wire_matters(d, elmore),
        load_crosses(d, elmore, t, low, high),
    ensures
        ({
            let (wire, slew) = d.load_result(elmore);
            &&& !(t - d.vo_delay).is_lt(F64(0)) ==> wire == t - d.vo_delay
            &&& (t - d.vo_delay).is_lt(F64(0)) ==> wire == elmore
            &&& !((high - low) / d.slew_derate).is_lt(d.drvr_slew) ==> slew == (high - low) / d.slew_derate
            &&& ((high - low) / d.slew_derate).is_lt(d.drvr_slew) ==> slew == d.drvr_slew
        }),
{
}

/// A wire that does not matter, and one behind which no crossing is found, has its Elmore delay and
/// the driver's slew: the wire delay goes to nothing with the Elmore delay.
pub proof fn lemma_short_wire(d: DmpView, elmore: F64)
    requires
        !wire_matters(d, elmore) || forall|t: F64, low: F64, high: F64| !#[trigger]
            load_crosses(d, elmore, t, low, high),
    ensures
        d.load_result(elmore) == (elmore, d.drvr_slew),
{
    if wire_matters(d, elmore) {
        let s = d.at_load(elmore);
        let upper = s.crossing_upper_bound() + elmore * F64(TWO);
        if let Some((t, low, high)) = s.crossings(true, upper) {
            assert(load_crosses(d, elmore, t, low, high));
        }
    }
}

/// The time at which the load crosses the delay threshold is that of the driver and the wire delay
/// together: exactly so where both times are whole numbers.
pub proof fn lemma_driver_and_wire_make_the_load(
    d: DmpView,
    elmore: F64,
    t: F64,
    low: F64,
    high: F64,
    at_driver: int,
    at_load: int,
)
    requires
        wire_matters(d, elmore),
        load_crosses(d, elmore, t, low, high),
        whole::whole(d.vo_delay, at_driver),
        whole::whole(t, at_load),
        at_driver <= at_load,
        whole::few_bits(at_load),
        whole::few_bits(at_load - at_driver),
    ensures
        whole::whole(d.load_result(elmore).0, at_load - at_driver),
        whole::whole(d.vo_delay + d.load_result(elmore).0, at_load),
{
    whole::lemma_difference(t, at_load, d.vo_delay, at_driver);
    let wire = t - d.vo_delay;
    whole::lemma_not_negative(wire, at_load - at_driver);
    whole::lemma_sum(d.vo_delay, at_driver, wire, at_load - at_driver);
}

/// Two drivers that are alike but for the time at which they cross the delay threshold: what one is
/// later its wire delay is shorter, so that one that crosses at time 0 has the load's time.
pub proof fn lemma_later_driver_has_a_shorter_wire(d: DmpView, elmore: F64, t: F64, low: F64, high: F64)
    requires
        wire_matters(d, elmore),
        load_crosses(d, elmore, t, low, high),
        !t.is_lt(F64(0)),
    ensures
        ({
            let early = DmpView { vo_delay: F64(0), ..d };
            let (from_zero, wire) = (early.load_result(elmore).0, d.load_result(elmore).0);
            !wire.is_eq(elmore) && !wire.nan() ==> wire == from_zero - d.vo_delay
        }),
{
    let early = DmpView { vo_delay: F64(0), ..d };
    let (s, r) = (d.at_load(elmore), early.at_load(elmore));
    lemma_same_crossings(r, s);
    assert(r.crossing_upper_bound() == s.crossing_upper_bound());
    reveal(F64::is_eq);
    reveal(F64::is_lt);
    reveal(F64::spec_neg);
    reveal(F64::spec_add);
    let zero = F64(0).spec_neg();
    assert(zero.zero());
    if crate::identities::finite(t) {
        crate::identities::lemma_plus_zero(t, zero);
    }
    let wire = d.load_result(elmore).0;
    if wire == elmore {
    } else {
        assert(wire == t - d.vo_delay);
    }
}

/// A number narrowed, by its bits without the sign.
spec fn narrow(m: nat) -> nat {
    if m >= 0x7ff0_0000_0000_0000 {
        0x7f80_0000
    } else if m == 0 {
        0
    } else {
        rounding::round(24, 0x7f80_0000, magnitude::units(53, m), pow2(925))
    }
}

proof fn lemma_narrow_grows(a: nat, b: nat)
    requires
        a <= b,
    ensures
        narrow(a) <= narrow(b) <= 0x7f80_0000,
{
    lemma_pow2_pos(925);
    lemma_pow2_pos(52);
    if 0 < a < b < 0x7ff0_0000_0000_0000 {
        magnitude::lemma_units_grow(53, a, b);
        exact::lemma_round_grows(24, 0x7f80_0000, magnitude::units(53, a), magnitude::units(53, b), pow2(925));
    }
}

/// Narrowing keeps the order of numbers.
pub proof fn lemma_narrowed_keeps_order(a: F64, b: F64)
    requires
        a.is_le(b),
    ensures
        a.narrowed().is_le(b.narrowed()),
{
    reveal(F64::is_le);
    reveal(F32::is_le);
    reveal(F64::narrowed);
    let (m, n) = (a.magnitude(), b.magnitude());
    lemma_narrow_grows(m, m);
    lemma_narrow_grows(n, n);
    if m <= n {
        lemma_narrow_grows(m, n);
    } else {
        lemma_narrow_grows(n, m);
    }
    assert(a.narrowed().magnitude() == narrow(m) && (narrow(m) == 0 || a.narrowed().negative() == a.negative()));
    assert(b.narrowed().magnitude() == narrow(n) && (narrow(n) == 0 || b.narrowed().negative() == b.negative()));
}

/// The table's delay rises with the load, at the driver's input slew.
pub open spec fn rises_with_load(d: DmpView) -> bool {
    forall|a: F32, b: F32|
        a.is_le(b) ==> match (
            #[trigger] d.model.gate_delay(d.in_slew.narrowed(), a),
            #[trigger] d.model.gate_delay(d.in_slew.narrowed(), b),
        ) {
            (Some((x, _)), Some((y, _))) => x.is_le(y),
            _ => true,
        }
}

/// Resistance shields: where the table's delay rises with the load, a gate whose effective
/// capacitance is at most that of its whole pi is no later than one that drives all of it at once.
pub proof fn lemma_shielded_load_is_no_later(d: DmpView)
    requires
        d.alg is Pi,
        rises_with_load(d),
    ensures
        match (d.gate_result(), d.model.gate_delay(d.in_slew.narrowed(), (d.c1 + d.c2).narrowed())) {
            (Some((e, (delay, _))), Some((lumped, _))) => e.ceff.is_le(d.c1 + d.c2) ==> exists|t: F32|
                delay == #[trigger] t.widened() && t.is_le(lumped),
            _ => true,
        },
{
    if let Some((e, (delay, _))) = d.gate_result() {
        lemma_delay_is_the_table_at_ceff(d);
        if e.ceff.is_le(d.c1 + d.c2) {
            lemma_narrowed_keeps_order(e.ceff, d.c1 + d.c2);
            let (t, _) = d.model.gate_delay(d.in_slew.narrowed(), e.ceff.narrowed())->0;
            assert(delay == t.widened());
        }
    }
}

} // verus!
