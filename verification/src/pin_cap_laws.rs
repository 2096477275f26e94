//! A net's parasitic that is under its pin capacitance: the calculation is what it would be without
//! the parasitic.

use vstd::prelude::*;
use crate::dcalc::DmpView;
use crate::delays;
use crate::delays::{CalcView, Reduced, Run};
use crate::float64::F64;
use crate::graph::Times;
use crate::netlist::ConnView;
use crate::topology;

verus! {

/// The calculation without the parasitics of a net's name.
pub open spec fn without(c: CalcView, net: Seq<char>) -> CalcView {
    CalcView { parasitics: c.parasitics.remove(net), ..c }
}

/// A vertex is on a net of the name.
pub open spec fn on_named(c: CalcView, v: int, net: Seq<char>) -> bool {
    c.g.vertex_net[v] matches Some(n) && c.g.netlist.nets[n as int].name == net
}

/// A driver has in-edges that propagate, and whatever its net reduces to has a total that the net's
/// pin capacitance is not at most.
pub open spec fn outweighed(c: CalcView, v: int) -> bool {
    &&& delays::propagating(c.g, c.g.in_edges[v]).len() > 0
    &&& forall|rf: int, mm: int|
        0 <= rf < 2 && 0 <= mm < 2 ==> (#[trigger] c.reduce(v, rf, mm) matches Some((p, _)) ==> !c.net_pin_cap(
            v,
            rf,
            mm,
        ).is_le(p.c1 + p.c2))
}

/// Every driver on a net of the name is outweighed.
pub open spec fn all_outweighed(c: CalcView, net: Seq<char>) -> bool {
    forall|v: int|
        0 <= v < c.g.vertices.len() && c.g.vertices[v].is_driver && #[trigger] on_named(c, v, net)
            ==> outweighed(c, v)
}

/// Two calculations of one graph that read the same loads at a driver.
spec fn same_load(a: CalcView, b: CalcView, v: int) -> bool {
    &&& a.g == b.g
    &&& a.logs == b.logs
    &&& if delays::propagating(a.g, a.g.in_edges[v]).len() == 0 {
        forall|rf: int, mm: int|
            0 <= rf < 2 && 0 <= mm < 2 ==> #[trigger] a.reduce(v, rf, mm) == b.reduce(v, rf, mm)
    } else {
        forall|rf: int, mm: int|
            0 <= rf < 2 && 0 <= mm < 2 ==> #[trigger] a.arc_parasitic(v, rf, mm) == b.arc_parasitic(v, rf, mm)
    }
}

proof fn lemma_same_cap_sum(a: CalcView, b: CalcView, pins: Seq<ConnView>, rf: int, mm: int)
    requires
        a.g == b.g,
    ensures
        a.cap_sum(pins, rf, mm) == b.cap_sum(pins, rf, mm),
    decreases pins.len(),
{
    if pins.len() > 0 {
        lemma_same_cap_sum(a, b, pins.drop_last(), rf, mm);
    }
}

proof fn lemma_same_pin_cap(a: CalcView, b: CalcView, v: int, rf: int, mm: int)
    requires
        a.g == b.g,
    ensures
        a.net_pin_cap(v, rf, mm) == b.net_pin_cap(v, rf, mm),
{
    if let Some(n) = a.g.vertex_net[v] {
        lemma_same_cap_sum(a, b, a.g.netlist.nets[n as int].pins, rf, mm);
    }
}

proof fn lemma_same_load(c: CalcView, net: Seq<char>, v: int)
    requires
        0 <= v < c.g.vertices.len(),
        c.g.vertices[v].is_driver,
        all_outweighed(c, net),
    ensures
        same_load(c, without(c, net), v),
{
    let d = without(c, net);
    if on_named(c, v, net) {
        assert(outweighed(c, v));
        assert forall|rf: int, mm: int| 0 <= rf < 2 && 0 <= mm < 2 implies #[trigger] c.arc_parasitic(v, rf, mm)
            == d.arc_parasitic(v, rf, mm) by {
            assert(c.reduce(v, rf, mm) matches Some((p, _)) ==> !c.net_pin_cap(v, rf, mm).is_le(p.c1 + p.c2));
            assert(d.reduce(v, rf, mm) is None);
        }
    } else {
        assert forall|rf: int, mm: int| #[trigger] c.reduce(v, rf, mm) == d.reduce(v, rf, mm) by {
            if let Some(n) = c.g.vertex_net[v] {
                let name = c.g.netlist.nets[n as int].name;
                if c.parasitics.contains_key(name) {
                    let names = c.parasitics[name].node_names;
                    let n = c.parasitics[name].network.len();
                    assert(d.parasitics[name] == c.parasitics[name]);
                    assert(c.node_pins(names, n, rf, mm).pin_cap =~= d.node_pins(names, n, rf, mm).pin_cap);
                    assert(c.node_pins(names, n, rf, mm).is_load =~= d.node_pins(names, n, rf, mm).is_load);
                }
            }
        }
        assert forall|rf: int, mm: int| #[trigger] c.arc_parasitic(v, rf, mm) == d.arc_parasitic(v, rf, mm) by {
            lemma_same_pin_cap(c, d, v, rf, mm);
            assert(c.reduce(v, rf, mm) == d.reduce(v, rf, mm));
        }
    }
}

proof fn lemma_same_root_wires(
    a: CalcView,
    b: CalcView,
    pe: Option<Reduced>,
    wires: Seq<usize>,
    k: int,
    rf: int,
    mm: int,
    t: Times,
)
    requires
        a.g == b.g,
        a.logs == b.logs,
    ensures
        a.root_wires(pe, wires, k, rf, mm, t) == b.root_wires(pe, wires, k, rf, mm, t),
    decreases wires.len() - k,
{
    if 0 <= k < wires.len() {
        lemma_same_root_wires(a, b, pe, wires, k + 1, rf, mm, a.root_wire(pe, wires[k] as int, rf, mm, t));
    }
}

proof fn lemma_same_root_corners(a: CalcView, b: CalcView, v: int, wires: Seq<usize>, c: int, t: Times)
    requires
        same_load(a, b, v),
        delays::propagating(a.g, a.g.in_edges[v]).len() == 0,
    ensures
        a.root_corners(v, wires, c, t) == b.root_corners(v, wires, c, t),
    decreases 4 - c,
{
    if 0 <= c < 4 {
        let (rf, mm) = (c / 2, c % 2);
        let pe = a.reduce(v, rf, mm);
        assert(pe == b.reduce(v, rf, mm));
        lemma_same_root_wires(a, b, pe, wires, 0, rf, mm, t);
        lemma_same_root_corners(a, b, v, wires, c + 1, a.root_wires(pe, wires, 0, rf, mm, t));
    }
}

proof fn lemma_same_init_wires(a: CalcView, b: CalcView, wires: Seq<usize>, k: int, t: Times)
    requires
        a.g == b.g,
    ensures
        a.init_wires(wires, k, t) == b.init_wires(wires, k, t),
    decreases wires.len() - k,
{
    if 0 <= k < wires.len() {
        let e = wires[k] as int;
        lemma_same_init_wires(
            a,
            b,
            wires,
            k + 1,
            t.with_slews(a.g.edges[e].to as int, delays::initial_pair()).with_delays(e, delays::initial_pair()),
        );
    }
}

proof fn lemma_same_clear_wires(a: CalcView, b: CalcView, wires: Seq<usize>, k: int, rf: int, mm: int, t: Times)
    requires
        a.g == b.g,
    ensures
        a.clear_wires(wires, k, rf, mm, t) == b.clear_wires(wires, k, rf, mm, t),
    decreases wires.len() - k,
{
    if 0 <= k < wires.len() {
        let w = wires[k] as int;
        let zero = crate::float32::F32(0);
        lemma_same_clear_wires(
            a,
            b,
            wires,
            k + 1,
            rf,
            mm,
            t.with_delay(w, rf, mm, zero).with_slew(a.g.edges[w].to as int, rf, mm, zero),
        );
    }
}

proof fn lemma_same_clear_undriven(
    a: CalcView,
    b: CalcView,
    v: int,
    wires: Seq<usize>,
    fanin: Seq<usize>,
    c: int,
    t: Times,
)
    requires
        a.g == b.g,
    ensures
        a.clear_undriven(v, wires, fanin, c, t) == b.clear_undriven(v, wires, fanin, c, t),
    decreases 4 - c,
{
    if 0 <= c < 4 {
        let (rf, mm) = (c / 2, c % 2);
        assert(a.drives(fanin, rf) == b.drives(fanin, rf));
        let zero = crate::float32::F32(0);
        let next = if a.drives(fanin, rf) {
            t
        } else {
            lemma_same_clear_wires(a, b, wires, 0, rf, mm, t.with_slew(v, rf, mm, zero));
            a.clear_wires(wires, 0, rf, mm, t.with_slew(v, rf, mm, zero))
        };
        lemma_same_clear_undriven(a, b, v, wires, fanin, c + 1, next);
    }
}

proof fn lemma_same_arc_wires(
    a: CalcView,
    b: CalcView,
    v: int,
    wires: Seq<usize>,
    k: int,
    rf: int,
    mm: int,
    slew: F64,
    d: Option<DmpView>,
    pe: Option<Reduced>,
    run: Run,
)
    requires
        a.g == b.g,
    ensures
        a.arc_wires(v, wires, k, rf, mm, slew, d, pe, run) == b.arc_wires(v, wires, k, rf, mm, slew, d, pe, run),
    decreases wires.len() - k,
{
    if 0 <= k < wires.len() {
        let w = wires[k] as int;
        let load = a.g.edges[w].to as int;
        let name = a.g.vertices[load].name;
        let elmore = delays::load_elmore(pe, name);
        let wire = match (d, elmore) {
            (Some(s), Some(el)) => s.load_result(el.widened()),
            (Some(_), None) => (F64(0), slew),
            (None, _) => (F64(0), slew.narrowed().widened()),
        };
        let next = match (d, elmore) {
            (Some(s), Some(el)) => Some(s.at_load(el.widened())),
            _ => d,
        };
        let noted = if d is Some {
            run.note(delays::load_line(a.g.vertices[v].name, name, wire.0, wire.1))
        } else {
            run
        };
        assert(a.adjust(a.g.vertices[v].lib->0, load, rf, wire) == b.adjust(a.g.vertices[v].lib->0, load, rf, wire));
        let (delay, load_slew) = a.adjust(a.g.vertices[v].lib->0, load, rf, wire);
        let merged = noted.times.merge_slew(load, rf, mm, load_slew.narrowed()).merge_delay(
            w,
            rf,
            mm,
            delay.narrowed(),
        );
        lemma_same_arc_wires(a, b, v, wires, k + 1, rf, mm, slew, next, pe, noted.at(merged));
    }
}

proof fn lemma_same_gate_arc(
    a: CalcView,
    b: CalcView,
    v: int,
    wires: Seq<usize>,
    e: int,
    k: int,
    mm: int,
    run: Run,
)
    requires
        same_load(a, b, v),
        delays::propagating(a.g, a.g.in_edges[v]).len() > 0,
        a.g.valid(),
        a.g.libs_valid(),
        0 <= e < a.g.edges.len(),
        a.g.edges[e].kind is Gate,
        0 <= k < a.g.arc_set(e).arcs.len(),
        0 <= mm < 2,
    ensures
        a.gate_arc(v, wires, e, k, mm, run) == b.gate_arc(v, wires, e, k, mm, run),
{
    let arc = a.g.arc_set(e).arcs[k];
    let rf = arc.to_rf as int;
    let in_slew = run.times.slew[a.g.edges[e].from as int][arc.from_rf as int][mm];
    a.g.lemma_arc_timed(e, k);
    let pe = a.arc_parasitic(v, rf, mm);
    assert(pe == b.arc_parasitic(v, rf, mm));
    lemma_same_pin_cap(a, b, v, rf, mm);
    assert(a.gate_times(v, arc.model->Gate_0, in_slew, rf, mm) == b.gate_times(
        v,
        arc.model->Gate_0,
        in_slew,
        rf,
        mm,
    ));
    if let Some((delay, slew, d)) = a.gate_times(v, arc.model->Gate_0, in_slew, rf, mm) {
        let noted = match (d, pe) {
            (Some(s), Some((p, _))) => run.note(
                delays::gate_line(a.g.vertices[v].name, arc, in_slew, p, s, delay, slew),
            ),
            _ => run,
        };
        let t = noted.times.merge_slew(v, rf, mm, slew.narrowed()).with_delay(e, k, mm, delay.narrowed());
        lemma_same_arc_wires(a, b, v, wires, 0, rf, mm, slew, d, pe, noted.at(t));
    }
}

proof fn lemma_same_edge_arcs(
    a: CalcView,
    b: CalcView,
    v: int,
    wires: Seq<usize>,
    e: int,
    mm: int,
    k: int,
    run: Run,
)
    requires
        same_load(a, b, v),
        delays::propagating(a.g, a.g.in_edges[v]).len() > 0,
        a.g.valid(),
        a.g.libs_valid(),
        0 <= e < a.g.edges.len(),
        a.g.edges[e].kind is Gate,
    ensures
        a.edge_arcs(v, wires, e, mm, k, run) == b.edge_arcs(v, wires, e, mm, k, run),
    decreases 2 - mm, a.g.arc_set(e).arcs.len() - k,
{
    let arcs = a.g.arc_set(e).arcs;
    if mm < 0 || mm >= 2 || k < 0 {
    } else if k >= arcs.len() {
        lemma_same_edge_arcs(a, b, v, wires, e, mm + 1, 0, run);
    } else if !(arcs[k].model is Gate) {
        lemma_same_edge_arcs(a, b, v, wires, e, mm, k + 1, run);
    } else {
        lemma_same_gate_arc(a, b, v, wires, e, k, mm, run);
        if let Ok(r) = a.gate_arc(v, wires, e, k, mm, run) {
            lemma_same_edge_arcs(a, b, v, wires, e, mm, k + 1, r);
        }
    }
}

proof fn lemma_same_fanin_edges(
    a: CalcView,
    b: CalcView,
    v: int,
    wires: Seq<usize>,
    fanin: Seq<usize>,
    i: int,
    run: Run,
)
    requires
        same_load(a, b, v),
        delays::propagating(a.g, a.g.in_edges[v]).len() > 0,
        a.g.valid(),
        a.g.libs_valid(),
        delays::all_into(a.g, fanin, v),
        i <= fanin.len(),
    ensures
        a.fanin_edges(v, wires, fanin, i, run) == b.fanin_edges(v, wires, fanin, i, run),
    decreases i,
{
    if i > 0 {
        let e = fanin[i - 1] as int;
        if a.g.edges[e].kind is Wire {
            lemma_same_fanin_edges(a, b, v, wires, fanin, i - 1, run);
        } else if !(a.g.arc_set(e).role is LatchDtoQ) {
            lemma_same_edge_arcs(a, b, v, wires, e, 0, 0, run);
            if let Ok(r) = a.edge_arcs(v, wires, e, 0, 0, run) {
                lemma_same_fanin_edges(a, b, v, wires, fanin, i - 1, r);
            }
        }
    }
}

proof fn lemma_same_visit(a: CalcView, b: CalcView, v: int, run: Run)
    requires
        a.g == b.g,
        a.logs == b.logs,
        a.g.valid(),
        a.g.libs_valid(),
        0 <= v < a.g.vertices.len(),
        a.g.vertices[v].is_driver ==> same_load(a, b, v),
    ensures
        a.visit(v, run) == b.visit(v, run),
{
    let fanin = delays::propagating(a.g, a.g.in_edges[v]);
    let wires = delays::wires_among(a.g, a.g.out_edges[v]);
    if a.g.vertices[v].is_driver {
        if fanin.len() == 0 {
            lemma_same_root_corners(a, b, v, wires, 0, run.times.with_slews(v, delays::zero_pair()));
        } else {
            crate::delay_laws::lemma_lists(a.g, v);
            lemma_same_init_wires(a, b, wires, 0, run.times);
            let start = a.init_wires(wires, 0, run.times).with_slews(v, delays::initial_pair());
            lemma_same_fanin_edges(a, b, v, wires, fanin, fanin.len() as int, run.at(start));
            if let Ok(r) = a.fanin_edges(v, wires, fanin, fanin.len() as int, run.at(start)) {
                lemma_same_clear_undriven(a, b, v, wires, fanin, 0, r.times);
            }
        }
    }
}

proof fn lemma_same_visits(c: CalcView, net: Seq<char>, order: Seq<usize>, i: int, run: Run)
    requires
        c.g.valid(),
        c.g.libs_valid(),
        all_outweighed(c, net),
        forall|j: int| 0 <= j < order.len() ==> (#[trigger] order[j]) < c.g.vertices.len(),
    ensures
        c.visit_all(order, i, run) == without(c, net).visit_all(order, i, run),
    decreases order.len() - i,
{
    if 0 <= i < order.len() {
        let v = order[i] as int;
        if c.g.vertices[v].is_driver {
            lemma_same_load(c, net, v);
        }
        lemma_same_visit(c, without(c, net), v, run);
        if let Ok(r) = c.visit(v, run) {
            lemma_same_visits(c, net, order, i + 1, r);
        }
    }
}

proof fn lemma_same_check_arcs(a: CalcView, b: CalcView, e: int, k: int, mm: int, run: Run)
    requires
        a.g == b.g,
    ensures
        a.check_arcs(e, k, mm, run) == b.check_arcs(e, k, mm, run),
    decreases a.g.arc_set(e).arcs.len() - k, 2 - mm,
{
    let arcs = a.g.arc_set(e).arcs;
    if k < 0 || k >= arcs.len() || mm < 0 {
    } else if mm >= 2 || !(arcs[k].model is Check) {
        lemma_same_check_arcs(a, b, e, k + 1, 0, run);
    } else {
        let table = arcs[k].model->Check_0;
        assert(a.check_delay(e, arcs[k], table, mm, run.times) == b.check_delay(e, arcs[k], table, mm, run.times));
        if let Some(x) = a.check_delay(e, arcs[k], table, mm, run.times) {
            lemma_same_check_arcs(a, b, e, k, mm + 1, run.at(run.times.with_delay(e, k, mm, x)));
        }
    }
}

proof fn lemma_same_check_edges(a: CalcView, b: CalcView, e: int, run: Run)
    requires
        a.g == b.g,
    ensures
        a.check_edges(e, run) == b.check_edges(e, run),
    decreases a.g.edges.len() - e,
{
    if 0 <= e < a.g.edges.len() {
        if !a.g.checks(e) {
            lemma_same_check_edges(a, b, e + 1, run);
        } else {
            lemma_same_check_arcs(a, b, e, 0, 0, run);
            if let Ok(r) = a.check_arcs(e, 0, 0, run) {
                lemma_same_check_edges(a, b, e + 1, r);
            }
        }
    }
}

/// A parasitic under the pin capacitance of its net is dropped: where every driver on a net of the
/// name is a pin that some arc drives, and the total of what the net reduces to there is under the
/// net's pin capacitance, for each transition and min/max, the calculation ends as it does without
/// the net's parasitics, at the same slews and delays and the same trace.
pub proof fn lemma_outweighed_parasitic_is_dropped(c: CalcView, net: Seq<char>, run: Run)
    requires
        c.g.valid(),
        c.g.libs_valid(),
        all_outweighed(c, net),
    ensures
        c.delays(run) == without(c, net).delays(run),
{
    topology::lemma_order_is_topological(c.g);
    if let Some(order) = topology::order_of(c.g) {
        assert forall|j: int| 0 <= j < order.len() implies (#[trigger] order[j]) < c.g.vertices.len() by {
            assert(order[j] < c.g.vertices.len());
        }
        lemma_same_visits(c, net, order, 0, run);
        if let Ok(r) = c.visit_all(order, 0, run) {
            lemma_same_check_edges(c, without(c, net), 0, r);
        }
    }
}

} // verus!
