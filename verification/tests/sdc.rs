use vyges_sta::float32::F32;
use vyges_sta::float64::F64;
use vyges_sta::liberty::{FALL, RISE};
use vyges_sta::sdc::{setup_required_time, sta_to_user, user_to_sta, Clock, PortDelay, Sdc};

fn f(x: f32) -> F32 {
    F32(x.to_bits())
}

fn d(x: f64) -> F64 {
    F64(x.to_bits())
}

/// A period of 1.78 ns is the single precision 1.78 times the single precision 1e-9 (bits 30f4a42e,
/// one below the double-rounded value); read back it is 1.7799999252332555, and a delay of
/// `period * 0.2` set from it lands on bits 2fc3b68b, the value arrivals are seeded with.
#[test]
fn unit_conversions_round_where_the_commands_do() {
    let period = user_to_sta(d(1.78), f(1e-9));
    assert_eq!(period.to_bits(), 0x30f4_a42e);
    assert_ne!(period.to_bits(), (1.78e-9f64 as f32).to_bits());
    let back = sta_to_user(period, f(1e-9));
    assert_eq!(back, d(1.7799999252332555));
    assert_eq!(user_to_sta(back * d(0.2), f(1e-9)).to_bits(), 0x2fc3_b68b);
}

/// Rise to rise: one period; rise to fall: half a period; fall to rise: a full period from the
/// source cycle start (the fall edge's arrival already carries its half period).
#[test]
fn setup_required_times_of_one_clock() {
    let c = Clock::new("c", f(2.0), "clk", true);
    assert_eq!(setup_required_time(&c, RISE, RISE), f(2.0));
    assert_eq!(setup_required_time(&c, RISE, FALL), f(1.0));
    assert_eq!(setup_required_time(&c, FALL, RISE), f(2.0));
    assert_eq!(setup_required_time(&c, FALL, FALL), f(3.0));
}

/// Where no target edge comes after a source edge there is no required time.
#[test]
fn a_clock_without_a_period_requires_nothing() {
    let c = Clock::new("c", f(0.0), "clk", true);
    assert_eq!(setup_required_time(&c, RISE, FALL), f(0.0));
}

/// The edge of a given waveform in cycle 0 where it comes after the source edge, else in cycle 1.
#[test]
fn setup_required_times_of_a_waveform() {
    let c = Clock { waveform: [f(0.25), f(1.5)], ..Clock::new("c", f(2.0), "clk", true) };
    assert_eq!(setup_required_time(&c, RISE, FALL), f(1.5));
    assert_eq!(setup_required_time(&c, FALL, RISE), f(2.25));
    assert_eq!(setup_required_time(&c, RISE, RISE), f(2.25));
}

#[test]
fn a_clock_has_the_default_waveform() {
    let c = Clock::new("core", f(3.0), "clk", false);
    assert_eq!((c.edge_time(RISE), c.edge_time(FALL)), (f(0.0), f(1.5)));
    assert_eq!((c.name.as_str(), c.source.as_str(), c.propagated), ("core", "clk", false));
    assert_eq!(c.clone(), c);
    assert_eq!(PortDelay::uniform("in", f(0.5)).delay, [[f(0.5); 2]; 2]);
}

/// The unit divides by its decimal, not by the single precision number nearest to it.
#[test]
fn user_units_divide_by_a_decimal() {
    for scale in [1e-9f32, 1e-12, 1e-15, 1.0, 0.25, 1e9, 3.4e38, 1e-45, -1e-9] {
        let decimal: f64 = format!("{scale:e}").parse().unwrap();
        for v in [1.0f32, 1.78e-9, -3.5e-12, 0.0, f32::MAX] {
            assert_eq!(sta_to_user(f(v), f(scale)).to_bits(), (f64::from(v) / decimal).to_bits(), "{v} / {scale}");
        }
    }
}

#[test]
fn constraints_copy() {
    let sdc = Sdc {
        clock: Clock { name: "clk".into(), period: f(1e-9), waveform: [f(0.0), f(5e-10)], source: "clk".into(), propagated: true },
        input_delays: vec![PortDelay::uniform("a", f(1e-10))],
        output_delays: vec![PortDelay::uniform("y", f(2e-10)), PortDelay::uniform("z", f(3e-10))],
    };
    assert_eq!(sdc.clone(), sdc);
    assert_eq!(sdc.output_delays[1].clone(), sdc.output_delays[1]);
}
