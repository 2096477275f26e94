//! Which value of a table a lookup reads: each axis takes what its variable says, whichever axis it
//! is.

use vstd::prelude::*;
use crate::delays;
use crate::float32::F32;
use crate::grid;
use crate::table::{AxisVar, GateModelView, TableView};

verus! {

/// An axis of input slews.
pub open spec fn of_slew(var: AxisVar) -> bool {
    var == AxisVar::InputNetTransition || var == AxisVar::InputTransitionTime
}

/// An axis of loads.
pub open spec fn of_load(var: AxisVar) -> bool {
    var == AxisVar::TotalOutputNetCapacitance
}

/// A gate's table over slews and loads gives, at the `i`th slew and the `j`th load, the value stored
/// for them, whichever of the two axes comes first.
pub proof fn lemma_gate_table_by_variable(t: TableView, slew: F32, load: F32, i: int, j: int)
    requires
        grid::regular(t),
        t.axes.len() == 2,
        !slew.nan(),
        !load.nan(),
        of_slew(t.axes[0].var) && of_load(t.axes[1].var) && grid::on_grid(t, 0, slew, i) && grid::on_grid(
            t,
            1,
            load,
            j,
        ) || of_load(t.axes[0].var) && of_slew(t.axes[1].var) && grid::on_grid(t, 1, slew, i) && grid::on_grid(
            t,
            0,
            load,
            j,
        ),
    ensures
        ({
            let at = if of_slew(t.axes[0].var) {
                i * t.axes[1].values.len() + j
            } else {
                j * t.axes[1].values.len() + i
            };
            &&& 0 <= at < t.values.len()
            &&& t.gate_value(slew, load) matches Some(r) && r.is_eq(t.values[at])
        }),
{
    if of_slew(t.axes[0].var) {
        grid::lemma_lookup_at_grid_point(t, slew, load, F32(0), i, j, 0);
    } else {
        grid::lemma_lookup_at_grid_point(t, load, slew, F32(0), j, i, 0);
    }
}

/// A gate's table over one variable reads that variable alone.
pub proof fn lemma_gate_table_of_one_variable(t: TableView, slew: F32, load: F32, i: int)
    requires
        grid::regular(t),
        t.axes.len() == 1,
        !slew.nan(),
        !load.nan(),
        of_slew(t.axes[0].var) && grid::on_grid(t, 0, slew, i) || of_load(t.axes[0].var) && grid::on_grid(
            t,
            0,
            load,
            i,
        ),
    ensures
        0 <= i < t.values.len(),
        t.gate_value(slew, load) matches Some(r) && r.is_eq(t.values[i]),
{
    if of_slew(t.axes[0].var) {
        grid::lemma_lookup_at_grid_point(t, slew, F32(0), F32(0), i, 0, 0);
    } else {
        grid::lemma_lookup_at_grid_point(t, load, F32(0), F32(0), i, 0, 0);
    }
}

/// A check's table over the clock's and the data's slews gives, at the `i`th of the clock and the
/// `j`th of the data, the value stored for them, whichever of the two axes comes first.
pub proof fn lemma_check_table_by_variable(t: TableView, clk: F32, data: F32, i: int, j: int)
    requires
        grid::regular(t),
        t.axes.len() == 2,
        !clk.nan(),
        !data.nan(),
        t.axes[0].var == AxisVar::RelatedPinTransition && t.axes[1].var == AxisVar::ConstrainedPinTransition
            && grid::on_grid(t, 0, clk, i) && grid::on_grid(t, 1, data, j) || t.axes[0].var
            == AxisVar::ConstrainedPinTransition && t.axes[1].var == AxisVar::RelatedPinTransition
            && grid::on_grid(t, 1, clk, i) && grid::on_grid(t, 0, data, j),
    ensures
        ({
            let at = if t.axes[0].var == AxisVar::RelatedPinTransition {
                i * t.axes[1].values.len() + j
            } else {
                j * t.axes[1].values.len() + i
            };
            &&& 0 <= at < t.values.len()
            &&& t.value_at(
                delays::check_pick(t, 0, clk, data),
                delays::check_pick(t, 1, clk, data),
                delays::check_pick(t, 2, clk, data),
            ) matches Some(r) && r.is_eq(t.values[at])
        }),
{
    if t.axes[0].var == AxisVar::RelatedPinTransition {
        grid::lemma_lookup_at_grid_point(t, clk, data, F32(0), i, j, 0);
    } else {
        grid::lemma_lookup_at_grid_point(t, data, clk, F32(0), j, i, 0);
    }
}

/// The delay of a gate is that of its delay table alone, its slew that of its slew table alone; what
/// has no table is 0, and a slew is never negative.
pub proof fn lemma_delay_and_slew_are_apart(m: GateModelView, slew: F32, load: F32)
    ensures
        ({
            let (of_delay, of_slew) = (GateModelView { slew: None, ..m }, GateModelView { delay: None, ..m });
            match (m.gate_delay(slew, load), of_delay.gate_delay(slew, load), of_slew.gate_delay(slew, load)) {
                (Some((d, s)), Some((d1, s1)), Some((d2, s2))) => d == d1 && s == s2 && s1 == F32(0) && d2 == F32(
                    0,
                ),
                (None, a, b) => a is None || b is None,
                _ => false,
            }
        }),
        m.delay matches Some(t) ==> (m.gate_delay(slew, load) matches Some((d, _)) ==> t.gate_value(slew, load)
            == Some(d)),
        m.slew matches Some(t) ==> (m.gate_delay(slew, load) matches Some((_, s)) ==> {
            &&& !s.is_lt(F32(0))
            &&& t.gate_value(slew, load) matches Some(x) && (F32(0).is_lt(x) ==> s == x) && (x.is_lt(F32(0)) ==> s
                == F32(0))
        }),
{
    reveal(F32::is_lt);
}

} // verus!
