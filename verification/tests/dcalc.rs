use vyges_sta::dcalc::{
    dspf_wire_delay_slew, exp2, find_root, lazy_product3, solve2, solve3, threshold_adjust, Alg, Dmp, LibThresholds,
    ThresholdLogs, Thresholds, M3,
};
use vyges_sta::float32::F32;
use vyges_sta::float64::F64;
use vyges_sta::table::{Axis, AxisVar, GateModel, Table};

fn f(x: f32) -> F32 {
    F32(x.to_bits())
}

fn d(x: f64) -> F64 {
    F64(x.to_bits())
}

fn hard(x: F64) -> f64 {
    f64::from_bits(x.to_bits())
}

fn row(r: [f64; 3]) -> [F64; 3] {
    [d(r[0]), d(r[1]), d(r[2])]
}

/// (1 + x/4096)^(2^12), 0 below -12.
#[test]
fn exp2_is_the_repeated_square() {
    assert_eq!(exp2(d(-13.0)), d(0.0));
    let mut y = 1.0 - 1.0 / 4096.0;
    for _ in 0..12 {
        y *= y;
    }
    assert_eq!(exp2(d(-1.0)), d(y));
    assert!((hard(exp2(d(-1.0))) - (-1.0f64).exp()).abs() < 1e-3, "an approximation of exp");
}

/// The closed forms solve the system.
#[test]
fn closed_form_solves() {
    let m: M3 = [row([2.0, 1.0, 0.0]), row([1.0, 3.0, 1.0]), row([0.0, 1.0, 4.0])];
    let v = row([1.0, 2.0, 3.0]);
    let p = solve3(&m, v);
    for i in 0..3 {
        let r = m[i][0] * p[0] + m[i][1] * p[1] + m[i][2] * p[2] + v[i];
        assert!(hard(r).abs() < 1e-12);
    }
    let p = solve2(&m, v);
    for i in 0..2 {
        assert!(hard(m[i][0] * p[0] + m[i][1] * p[1] + v[i]).abs() < 1e-12);
    }
}

/// Rows 0 and 1 sum left to right, row 2 sums its last two terms first. With 1 and two terms under
/// half an ulp, the orders give 1 and 1 + ulp.
#[test]
fn the_scalar_tail_row_sums_its_last_two_terms_first() {
    let t = f64::EPSILON * 0.5 * 0.99;
    let m = [[d(1.0); 3]; 3];
    let p = lazy_product3(&m, [d(1.0), d(t), d(t)]);
    assert_eq!(p[0], d(1.0));
    assert_eq!(p[1], d(1.0));
    assert_eq!(p[2], d(1.0 + f64::EPSILON));
}

/// A bracket that does not straddle a root fails; the root of a line is found.
#[test]
fn find_root_brackets() {
    let line = |x: F64| (x - d(0.3), d(1.0));
    let (r, failed) = find_root(&line, d(0.0), d(1.0), d(1e-9), 20);
    assert!(!failed && (hard(r) - 0.3).abs() < 1e-9);
    let above = |x: F64| (x + d(5.0), d(1.0));
    assert!(find_root(&above, d(0.0), d(1.0), d(1e-9), 20).1);
}

fn thresholds() -> Thresholds {
    Thresholds { vth: f(0.5), vl: f(0.2), vh: f(0.8), slew_derate: f(1.0) }
}

fn logs(t: &Thresholds) -> ThresholdLogs {
    let (vth, rest, slew) = t.log_arguments();
    ThresholdLogs { vth: d(hard(vth).ln()), rest: d(hard(rest).ln()), slew: d(hard(slew).ln()) }
}

/// Delay and slew grow linearly with the load.
fn linear_model() -> GateModel {
    let table = |base: f32, per: f32| Table {
        axes: vec![
            Axis { var: AxisVar::InputNetTransition, values: vec![f(0.0), f(1e-9)] },
            Axis { var: AxisVar::TotalOutputNetCapacitance, values: vec![f(0.0), f(1e-12)] },
        ],
        values: vec![f(base), f(base + per), f(base + 1e-11), f(base + 1e-11 + per)],
    };
    GateModel { delay: Some(table(5e-11, 4e-10)), slew: Some(table(2e-11, 6e-10)) }
}

/// A lumped load takes the table's delay and slew at the total capacitance.
#[test]
fn a_capacitive_load_is_looked_up() {
    let (model, th) = (linear_model(), thresholds());
    let mut dmp = Dmp::new(&model, &th, &logs(&th), f(1e-10), f(0.0), f(0.0), f(2e-13)).unwrap();
    assert_eq!(dmp.algorithm(), Alg::Cap);
    let (delay, slew) = dmp.gate_delay_slew().unwrap();
    let (want_delay, want_slew) = model.gate_delay(f(1e-10), f(2e-13)).unwrap();
    assert_eq!((delay, slew), (want_delay.to_f64(), want_slew.to_f64()));
    assert_eq!(dmp.load_delay_slew(d(3e-12)), (d(3e-12), slew), "the wire delay is the Elmore delay");
}

/// A pi load sees an effective capacitance between the near one and the total.
#[test]
fn a_pi_load_has_an_effective_capacitance() {
    let (model, th) = (linear_model(), thresholds());
    let mut dmp = Dmp::new(&model, &th, &logs(&th), f(1e-10), f(5e-14), f(2000.0), f(2e-13)).unwrap();
    assert_eq!((dmp.algorithm(), dmp.alg), (Alg::Pi, Alg::Pi));
    let (delay, slew) = dmp.gate_delay_slew().unwrap();
    assert!(dmp.driver_valid());
    let (_, _, _, ceff) = dmp.state();
    assert_eq!(dmp.ceff, ceff);
    assert!(5e-14 < hard(ceff) && hard(ceff) < 2.5e-13, "{}", hard(ceff));
    assert!(hard(delay) > 5e-11 && hard(slew) > 2e-11);
    let (wire, load_slew) = dmp.load_delay_slew(d(4e-10));
    assert!(hard(wire) >= 0.0 && hard(load_slew) >= hard(slew), "a load's slew is not under the driver's");
}

/// Without a near capacitance the far one alone is driven through the resistor.
#[test]
fn no_near_capacitance_is_the_zero_c2_form() {
    let (model, th) = (linear_model(), thresholds());
    let mut dmp = Dmp::new(&model, &th, &logs(&th), f(1e-10), f(0.0), f(2000.0), f(2e-13)).unwrap();
    assert_eq!(dmp.algorithm(), Alg::ZeroC2);
    let (delay, slew) = dmp.gate_delay_slew().unwrap();
    assert!(hard(delay) > 5e-11 && hard(slew) > 0.0);
}

/// A table that is read outside its values gives no calculator.
#[test]
fn a_short_table_gives_no_delay() {
    let th = thresholds();
    let broken = GateModel {
        delay: Some(Table { axes: vec![], values: vec![] }),
        slew: Some(Table { axes: vec![], values: vec![] }),
    };
    assert!(Dmp::new(&broken, &th, &logs(&th), f(1e-10), f(0.0), f(0.0), f(2e-13)).is_none());
}

#[test]
fn a_ports_wire_is_its_elmore_delay_at_the_thresholds() {
    let th = thresholds();
    let el = 3e-12f32;
    let (delay, slew) = dspf_wire_delay_slew(d(1e-11), f(el), &th, &logs(&th));
    let e = f64::from(el);
    assert_eq!(delay, d(-e * 0.5f64.ln()));
    let (vl, vh) = (f64::from(0.2f32), f64::from(0.8f32));
    assert_eq!(slew, d(1e-11 + e * ((1.0 - vl) / (1.0 - vh)).ln() / 1.0));
}

#[test]
fn thresholds_move_between_libraries_only() {
    let a = LibThresholds { output: f(0.5), input: f(0.5), lower: f(0.2), upper: f(0.8), derate: f(1.0) };
    let b = LibThresholds { output: f(0.5), input: f(0.25), lower: f(0.125), upper: f(0.875), derate: f(0.5) };
    let (mut delay, mut slew) = (d(1e-11), d(2e-11));
    threshold_adjust(true, &a, &b, true, &mut delay, &mut slew);
    assert_eq!((delay, slew), (d(1e-11), d(2e-11)));
    for rise in [true, false] {
        let (mut delay, mut slew) = (d(1e-11), d(2e-11));
        threshold_adjust(false, &a, &b, rise, &mut delay, &mut slew);
        let delta = 2e-11f64 as f32 * ((0.25f32 - 0.5) / (0.8f32 - 0.2));
        let moved = if rise { delta } else { -delta };
        assert_eq!(delay, d(1e-11 + f64::from(moved)));
        let ratio = ((0.875f32 - 0.125) / 0.5) / ((0.8f32 - 0.2) / 1.0);
        assert_eq!(slew, d(2e-11 * f64::from(ratio)));
    }
}
