use vyges_sta::float32::F32;
use vyges_sta::table::{find_axis_index, Axis, AxisVar, GateModel, Table};

fn f(x: f32) -> F32 {
    F32(x.to_bits())
}

fn floats(v: &[f32]) -> Vec<F32> {
    v.iter().map(|x| f(*x)).collect()
}

/// Clamp to the end intervals; bisection inside.
#[test]
fn axis_index_clamps_to_the_end_intervals() {
    let v = floats(&[1.0f32, 2.0, 4.0, 8.0]);
    assert_eq!(find_axis_index(f(0.5), &v), 0);
    assert_eq!(find_axis_index(f(1.0), &v), 0);
    assert_eq!(find_axis_index(f(2.0), &v), 1);
    assert_eq!(find_axis_index(f(5.0), &v), 2);
    assert_eq!(find_axis_index(f(8.0), &v), 2);
    assert_eq!(find_axis_index(f(20.0), &v), 2);
}

/// Bilinear in double, the four terms in their order; outside the table it extrapolates from the
/// end interval.
#[test]
fn two_d_lookup_is_bilinear_and_extrapolates() {
    let t = Table {
        axes: vec![
            Axis { var: AxisVar::InputNetTransition, values: floats(&[0.0, 1.0]) },
            Axis { var: AxisVar::TotalOutputNetCapacitance, values: floats(&[0.0, 2.0]) },
        ],
        values: floats(&[1.0, 3.0, 5.0, 9.0]),
    };
    assert_eq!(
        t.find_value(f(0.5), f(1.0), f(0.0)),
        Some(f(((0.5 * 0.5 * 1.0) + 0.5 * 0.5 * 5.0 + 0.5 * 0.5 * 9.0 + 0.5 * 0.5 * 3.0) as f32))
    );
    assert_eq!(t.find_value(f(2.0), f(0.0), f(0.0)), Some(f(9.0)), "extrapolated along axis 1: 1 + 2·(5−1)");
    assert_eq!(t.gate_value(f(2.0), f(0.0)), Some(f(9.0)));
}

#[test]
fn one_d_lookup_interpolates_between_its_neighbours() {
    let t = Table {
        axes: vec![Axis { var: AxisVar::TotalOutputNetCapacitance, values: floats(&[1.0, 3.0]) }],
        values: floats(&[10.0, 20.0]),
    };
    assert_eq!(t.find_value(f(2.0), f(0.0), f(0.0)), Some(f(15.0)));
    assert_eq!(t.gate_value(f(100.0), f(2.0)), Some(f(15.0)), "the load, not the slew");
}

#[test]
fn a_three_d_table_interpolates_in_all_axes() {
    let axis = || Axis { var: AxisVar::InputNetTransition, values: floats(&[0.0, 1.0]) };
    let t = Table {
        axes: vec![axis(), axis(), axis()],
        values: floats(&[0.0, 1.0, 2.0, 3.0, 4.0, 5.0, 6.0, 7.0]),
    };
    assert_eq!(t.find_value(f(0.5), f(0.5), f(0.5)), Some(f(3.5)));
    assert_eq!(t.find_value(f(1.0), f(0.0), f(1.0)), Some(f(5.0)));
}

/// A scalar table gives its one value.
#[test]
fn a_scalar_table_gives_its_value() {
    let t = Table { axes: vec![], values: floats(&[2.5]) };
    assert_eq!(t.find_value(f(7.0), f(8.0), f(9.0)), Some(f(2.5)));
}

/// A lookup that would read a value the table does not have gives none.
#[test]
fn a_lookup_outside_the_values_gives_none() {
    let empty = Table { axes: vec![], values: vec![] };
    assert_eq!(empty.find_value(f(0.0), f(0.0), f(0.0)), None);
    let short = Table {
        axes: vec![Axis { var: AxisVar::InputNetTransition, values: floats(&[0.0, 1.0]) }],
        values: floats(&[1.0]),
    };
    assert_eq!(short.find_value(f(0.5), f(0.0), f(0.0)), None);
}

/// A table whose axes ascend and whose values are complete is never read outside.
#[test]
fn a_complete_table_answers_any_number() {
    let t = Table {
        axes: vec![
            Axis { var: AxisVar::InputNetTransition, values: floats(&[0.0, 1.0, 4.0]) },
            Axis { var: AxisVar::TotalOutputNetCapacitance, values: floats(&[0.5]) },
        ],
        values: floats(&[1.0, 2.0, 3.0]),
    };
    for a in [-1e30, -1.0, 0.0, 0.5, 1.0, 3.0, 4.0, 9.0, 1e30] {
        for b in [-1.0, 0.5, 2.0] {
            assert!(t.find_value(f(a), f(b), f(0.0)).is_some());
        }
    }
}

#[test]
fn a_gate_without_tables_is_ideal_and_slews_are_not_negative() {
    let ideal = GateModel { delay: None, slew: None };
    assert_eq!(ideal.gate_delay(f(1.0), f(1.0)), Some((f(0.0), f(0.0))));
    let negative = GateModel {
        delay: Some(Table { axes: vec![], values: floats(&[-2.0]) }),
        slew: Some(Table { axes: vec![], values: floats(&[-2.0]) }),
    };
    assert_eq!(negative.gate_delay(f(1.0), f(1.0)), Some((f(-2.0), f(0.0))));
    let broken = GateModel { delay: Some(Table { axes: vec![], values: vec![] }), slew: None };
    assert_eq!(broken.gate_delay(f(1.0), f(1.0)), None);
}

#[test]
fn axis_variables_are_read_by_name() {
    assert_eq!(AxisVar::parse("input_net_transition"), AxisVar::InputNetTransition);
    assert_eq!(AxisVar::parse("related_pin_transition"), AxisVar::RelatedPinTransition);
    assert_eq!(AxisVar::parse("constrained_pin_transition"), AxisVar::ConstrainedPinTransition);
    assert_eq!(AxisVar::parse("total_output_net_capacitance"), AxisVar::TotalOutputNetCapacitance);
    assert!(AxisVar::parse("total_output_net_capacitance").is_capacitance());
    assert!(!AxisVar::parse("input_net_transition").is_capacitance());
    assert_eq!(AxisVar::parse("anything"), AxisVar::Other);
}

/// A lookup at a grid point gives the value stored there, for each order and at every end.
#[test]
fn grid_points_give_their_values() {
    let axes = [floats(&[-0.3, 0.1, 0.7]), floats(&[1e-30, 2.5]), floats(&[0.0, 0.3, 0.9, 1.1])];
    let axis = |k: usize| Axis { var: AxisVar::InputNetTransition, values: axes[k].clone() };
    let values: Vec<F32> = (0..24).map(|i| f(0.1 * i as f32 - 0.7)).collect();
    let t1 = Table { axes: vec![axis(0)], values: values[..3].to_vec() };
    let t2 = Table { axes: vec![axis(0), axis(1)], values: values[..6].to_vec() };
    let t3 = Table { axes: vec![axis(0), axis(1), axis(2)], values: values.clone() };
    for i in 0..3 {
        assert_eq!(t1.find_value(axes[0][i], f(0.0), f(0.0)), Some(values[i]));
        for j in 0..2 {
            assert_eq!(t2.find_value(axes[0][i], axes[1][j], f(0.0)), Some(values[i * 2 + j]));
            for k in 0..4 {
                assert_eq!(t3.find_value(axes[0][i], axes[1][j], axes[2][k]), Some(values[(i * 2 + j) * 4 + k]));
            }
        }
    }
    let zero = Table { axes: vec![axis(0)], values: floats(&[-0.0, 1.0, 2.0]) };
    assert_eq!(zero.find_value(axes[0][0], f(0.0), f(0.0)), Some(f(0.0)));
}
