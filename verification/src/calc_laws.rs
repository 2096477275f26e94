//! What a gate arc and its wires are calculated from: the capacitance of the pins on a net, the
//! network as its pins load it, the thresholds of the driver's library and of the load's.

use vstd::prelude::*;
use crate::dcalc;
use crate::dcalc::{Alg, DmpView};
use crate::delays;
use crate::delays::CalcView;
use crate::float32::F32;
use crate::float64::F64;
use crate::gate_laws;
use crate::graph;
use crate::graph::VertexView;
use crate::identities;
use crate::liberty;
use crate::liberty::{PortView, RISE};
use crate::merges;
use crate::netlist::ConnView;
use crate::table::GateModelView;
use crate::whole;

verus! {

/// The first port of a name.
pub open spec fn first_port(ports: Seq<PortView>, name: Seq<char>, i: int) -> bool {
    &&& 0 <= i < ports.len()
    &&& ports[i].name == name
    &&& forall|k: int| 0 <= k < i ==> (#[trigger] ports[k]).name != name
}

proof fn lemma_first_port(ports: Seq<PortView>, name: Seq<char>, i: int)
    requires
        first_port(ports, name, i),
    ensures
        liberty::port_named(ports, name) == Some(ports[i]),
    decreases i,
{
    if i > 0 {
        let rest = ports.skip(1);
        assert(ports[0].name != name);
        assert forall|k: int| 0 <= k < i - 1 implies (#[trigger] rest[k]).name != name by {
            assert(rest[k] == ports[k + 1]);
        }
        assert(rest[i - 1] == ports[i]);
        lemma_first_port(rest, name, i - 1);
    }
}

proof fn lemma_no_port(ports: Seq<PortView>, name: Seq<char>)
    requires
        forall|k: int| 0 <= k < ports.len() ==> (#[trigger] ports[k]).name != name,
    ensures
        liberty::port_named(ports, name) is None,
    decreases ports.len(),
{
    if ports.len() > 0 {
        let rest = ports.skip(1);
        assert forall|k: int| 0 <= k < rest.len() implies (#[trigger] rest[k]).name != name by {
            assert(rest[k] == ports[k + 1]);
        }
        lemma_no_port(rest, name);
    }
}

/// A pin's capacitance is that of its cell's port of its name, for the transition and the min/max
/// asked for; a pin of no cell, and one whose cell has no such port, has none.
pub proof fn lemma_pin_cap_is_the_ports(c: CalcView, v: int, rf: int, mm: int, i: int)
    ensures
        ({
            let x = c.g.vertices[v];
            let ports = c.g.libs[x.lib->0 as int].cells[x.cell->0].ports;
            let inside = x.lib is Some && x.cell is Some && x.port is Some;
            &&& inside && first_port(ports, x.port->0, i) ==> c.pin_cap(v, rf, mm) == ports[i].capacitance[rf][mm]
            &&& inside && (forall|k: int| 0 <= k < ports.len() ==> (#[trigger] ports[k]).name != x.port->0)
                ==> c.pin_cap(v, rf, mm) == F32(0)
            &&& !inside ==> c.pin_cap(v, rf, mm) == F32(0)
        }),
{
    let x = c.g.vertices[v];
    if x.lib is Some && x.cell is Some && x.port is Some {
        let ports = c.g.cell_of(v).ports;
        if first_port(ports, x.port->0, i) {
            lemma_first_port(ports, x.port->0, i);
        }
        if forall|k: int| 0 <= k < ports.len() ==> (#[trigger] ports[k]).name != x.port->0 {
            lemma_no_port(ports, x.port->0);
        }
    }
}

/// The last vertex of a name.
pub open spec fn last_named(vertices: Seq<VertexView>, name: Seq<char>, v: int) -> bool {
    &&& 0 <= v < vertices.len()
    &&& vertices[v].name == name
    &&& forall|k: int| v < k < vertices.len() ==> (#[trigger] vertices[k]).name != name
}

/// A name stands for the last vertex that has it, and for none where none has.
pub proof fn lemma_vertex_of_a_name(vertices: Seq<VertexView>, name: Seq<char>)
    requires
        vertices.len() <= usize::MAX,
    ensures
        graph::name_index(vertices).contains_key(name) ==> last_named(
            vertices,
            name,
            graph::name_index(vertices)[name] as int,
        ),
        !graph::name_index(vertices).contains_key(name) ==> forall|k: int|
            0 <= k < vertices.len() ==> (#[trigger] vertices[k]).name != name,
    decreases vertices.len(),
{
    if vertices.len() > 0 {
        let less = vertices.drop_last();
        lemma_vertex_of_a_name(less, name);
        assert forall|k: int| 0 <= k < less.len() implies #[trigger] vertices[k] == less[k] by {}
        if vertices.last().name != name && graph::name_index(less).contains_key(name) {
            let v = graph::name_index(less)[name] as int;
            assert forall|k: int| v < k < vertices.len() implies (#[trigger] vertices[k]).name != name by {
                if k < less.len() {
                    assert(less[k].name != name);
                }
            }
        }
        if !graph::name_index(vertices).contains_key(name) {
            assert forall|k: int| 0 <= k < vertices.len() implies (#[trigger] vertices[k]).name != name by {
                if k < less.len() {
                    assert(less[k].name != name);
                }
            }
        }
    }
}

/// A pin on a net loads it with its own capacitance, on top of those before it; one that is no
/// vertex does not.
pub proof fn lemma_a_pin_adds_its_capacitance(c: CalcView, pins: Seq<ConnView>, pin: ConnView, rf: int, mm: int)
    ensures
        ({
            let name = c.g.netlist.pin_name(pin);
            let (with, before) = (c.cap_sum(pins.push(pin), rf, mm), c.cap_sum(pins, rf, mm));
            &&& c.index().contains_key(name) ==> with == before + c.pin_cap(c.index()[name] as int, rf, mm)
            &&& !c.index().contains_key(name) ==> with == before
        }),
{
    assert(pins.push(pin).drop_last() =~= pins);
}

/// What whole numbers come to.
pub open spec fn sum_of(w: Seq<int>) -> int
    decreases w.len(),
{
    if w.len() == 0 {
        0
    } else {
        sum_of(w.drop_last()) + w.last()
    }
}

proof fn lemma_sum_not_negative(w: Seq<int>)
    requires
        forall|i: int| 0 <= i < w.len() ==> 0 <= #[trigger] w[i],
    ensures
        0 <= sum_of(w),
    decreases w.len(),
{
    if w.len() > 0 {
        assert forall|i: int| 0 <= i < w.drop_last().len() implies 0 <= #[trigger] w.drop_last()[i] by {
            assert(w[i] >= 0);
        }
        lemma_sum_not_negative(w.drop_last());
        assert(w[w.len() - 1] >= 0);
    }
}

/// The pin capacitance of a net is that of all its pins together: exactly so where they are whole
/// numbers whose sum fits.
pub proof fn lemma_every_pin_loads_its_net(c: CalcView, pins: Seq<ConnView>, rf: int, mm: int, w: Seq<int>)
    requires
        w.len() == pins.len(),
        forall|i: int|
            0 <= i < w.len() ==> 0 <= #[trigger] w[i] && {
                let name = c.g.netlist.pin_name(pins[i]);
                c.index().contains_key(name) && whole::single_whole(
                    c.pin_cap(c.index()[name] as int, rf, mm),
                    w[i],
                )
            },
        sum_of(w) < 0x100_0000,
    ensures
        whole::single_whole(c.cap_sum(pins, rf, mm), sum_of(w)),
    decreases pins.len(),
{
    if pins.len() == 0 {
        whole::lemma_single_zero(F32(0));
    } else {
        let (less, fewer) = (pins.drop_last(), w.drop_last());
        assert forall|i: int| 0 <= i < fewer.len() implies 0 <= #[trigger] fewer[i] && {
            let name = c.g.netlist.pin_name(less[i]);
            c.index().contains_key(name) && whole::single_whole(c.pin_cap(c.index()[name] as int, rf, mm), fewer[i])
        } by {
            assert(w[i] == fewer[i] && pins[i] == less[i]);
        }
        let last = w[w.len() - 1];
        assert(last >= 0);
        lemma_sum_not_negative(fewer);
        lemma_every_pin_loads_its_net(c, less, rf, mm, fewer);
        let name = c.g.netlist.pin_name(pins[pins.len() - 1]);
        whole::lemma_single_sum(
            c.cap_sum(less, rf, mm),
            sum_of(fewer),
            c.pin_cap(c.index()[name] as int, rf, mm),
            last,
        );
    }
}

/// The net of a driver is loaded by every pin on it; a driver on no net by itself.
pub proof fn lemma_net_of_a_driver(c: CalcView, v: int, rf: int, mm: int)
    ensures
        c.g.vertex_net[v] matches Some(n) ==> c.net_pin_cap(v, rf, mm) == c.cap_sum(
            c.g.netlist.nets[n as int].pins,
            rf,
            mm,
        ),
        c.g.vertex_net[v] is None ==> c.net_pin_cap(v, rf, mm) == c.pin_cap(v, rf, mm),
{
}

/// The first node of a name.
pub open spec fn first_named(names: Seq<Seq<char>>, name: Seq<char>, d: int) -> bool {
    &&& 0 <= d < names.len()
    &&& names[d] == name
    &&& forall|k: int| 0 <= k < d ==> #[trigger] names[k] != name
}

proof fn lemma_first_named(names: Seq<Seq<char>>, name: Seq<char>, i: int)
    requires
        0 <= i,
        forall|k: int| 0 <= k < i && k < names.len() ==> #[trigger] names[k] != name,
    ensures
        delays::first_place(names, name, i) matches Some(d) ==> first_named(names, name, d),
        delays::first_place(names, name, i) is None ==> !names.contains(name),
    decreases names.len() - i,
{
    if i < names.len() && names[i] != name {
        lemma_first_named(names, name, i + 1);
    }
}

/// A driver's net is reduced from the node that has the driver's name, each node loaded by the pin
/// of its name; Elmore delays are kept for the pins that do not drive. Without parasitics of the
/// net, or without such a node, there is nothing to reduce.
pub proof fn lemma_net_is_reduced_from_its_driver(c: CalcView, v: int, rf: int, mm: int, i: int)
    ensures
        match (c.g.vertex_net[v], c.reduce(v, rf, mm)) {
            (None, r) => r is None,
            (Some(n), None) => {
                let net = c.g.netlist.nets[n as int].name;
                c.parasitics.contains_key(net) ==> !c.parasitics[net].node_names.contains(c.g.vertices[v].name)
            },
            (Some(n), Some((p, names))) => {
                let net = c.g.netlist.nets[n as int].name;
                let np = c.parasitics[net];
                &&& c.parasitics.contains_key(net)
                &&& names == np.node_names
                &&& exists|d: int|
                    first_named(names, c.g.vertices[v].name, d) && p == #[trigger] np.network.reduced(
                        d,
                        c.node_pins(names, np.network.len(), rf, mm),
                    )
            },
        },
        ({
            let n = c.g.vertex_net[v]->0;
            let np = c.parasitics[c.g.netlist.nets[n as int].name];
            let pins = c.node_pins(np.node_names, np.network.len(), rf, mm);
            let name = np.node_names[i];
            let u = c.index()[name] as int;
            let is_pin = i < np.node_names.len() && c.index().contains_key(name);
            0 <= i < np.network.len() ==> {
                &&& pins.pin_cap.len() == np.network.len()
                &&& pins.is_load.len() == np.network.len()
                &&& is_pin ==> pins.pin_cap[i] == c.pin_cap(u, rf, mm) && pins.is_load[i]
                    == !c.g.vertices[u].is_driver
                &&& !is_pin ==> pins.pin_cap[i] == F32(0) && !pins.is_load[i]
            }
        }),
{
    if let Some(n) = c.g.vertex_net[v] {
        let np = c.parasitics[c.g.netlist.nets[n as int].name];
        lemma_first_named(np.node_names, c.g.vertices[v].name, 0);
        if let Some((p, names)) = c.reduce(v, rf, mm) {
            let d = delays::first_place(np.node_names, c.g.vertices[v].name, 0)->0;
            assert(p == np.network.reduced(d, c.node_pins(names, np.network.len(), rf, mm)));
        }
    }
}

/// A gate arc that drives no parasitic, or one that the pins of its net outweigh, takes its delay and
/// slew from its tables at the net's pin capacitance.
pub proof fn lemma_lumped_gate(c: CalcView, v: int, model: GateModelView, in_slew: F32, rf: int, mm: int)
    requires
        c.reduce(v, rf, mm) matches Some((p, _)) ==> !c.net_pin_cap(v, rf, mm).is_le(p.c1 + p.c2),
    ensures
        match (c.gate_times(v, model, in_slew, rf, mm), model.gate_delay(in_slew, c.net_pin_cap(v, rf, mm))) {
            (Some((delay, slew, d)), Some((x, y))) => delay == x.widened() && slew == y.widened() && d is None,
            (None, None) => true,
            _ => false,
        },
{
}

/// A gate arc that drives a parasitic is calculated on the pi model of its net, at the output
/// thresholds of the driver's library for the transition it makes, from the slew it is given: its
/// delay is the table's at the effective capacitance left with the state, but for the waveform's
/// own of a driver with no near capacitance.
pub proof fn lemma_gate_on_a_parasitic(c: CalcView, v: int, model: GateModelView, in_slew: F32, rf: int, mm: int)
    requires
        identities::single_finite(in_slew),
        c.reduce(v, rf, mm) matches Some((p, _)) && c.net_pin_cap(v, rf, mm).is_le(p.c1 + p.c2),
        c.g.vertices[v].lib is Some,
    ensures
        c.gate_times(v, model, in_slew, rf, mm) matches Some((delay, slew, d)) ==> {
            let p = (c.reduce(v, rf, mm)->0).0;
            let h = c.g.libs[c.g.vertices[v].lib->0 as int].header;
            &&& d matches Some(s) && {
                &&& s.model == model
                &&& s.in_slew == in_slew.widened()
                &&& s.c1 == p.c1.widened()
                &&& s.c2 == p.c2.widened()
                &&& s.rpi == p.rpi.widened()
                &&& s.vth == h.output_threshold[rf].widened()
                &&& s.vl == h.slew_lower_threshold[rf].widened()
                &&& s.vh == h.slew_upper_threshold[rf].widened()
                &&& s.slew_derate == h.slew_derate.widened()
                &&& s.ln_rest == c.logs[c.g.vertices[v].lib->0 as int].output[rf].rest
                &&& s.drvr_slew == slew
                &&& (s.alg is ZeroC2 && s.driver_valid) || (model.gate_delay(in_slew, s.ceff.narrowed()) matches Some(
                    (x, _),
                ) && delay == x.widened())
            }
        },
{
    identities::lemma_widened_is_exact(in_slew);
    let lib = c.g.vertices[v].lib->0;
    let p = (c.reduce(v, rf, mm)->0).0;
    if let Some(d) = dcalc::initial_state(
        model,
        delays::output_thresholds(c.header(lib), rf),
        c.logs[lib as int].output[rf],
        in_slew,
        p.c2,
        p.rpi,
        p.c1,
    ) {
        gate_laws::lemma_delay_is_the_table_at_ceff(d);
        dcalc::lemma_gate_keeps_circuit(d);
    }
}

/// The library whose thresholds a pin is measured at: its own; a port's is the first.
pub open spec fn measured_by(c: CalcView, v: int) -> int {
    match c.g.vertices[v].lib {
        Some(l) => l as int,
        None => 0,
    }
}

/// Between a driver and a load of one library nothing is moved. Between two, the wire delay of a
/// rising transition grows, and that of a falling one shrinks, by the load's slew times how far the
/// load's input threshold lies above the driver's output threshold, over the driver's slew
/// thresholds; and the load's slew is scaled from the driver's slew thresholds to its own.
pub proof fn lemma_moved_to_the_loads_thresholds(c: CalcView, lib: usize, load: int, rf: int, wire: (F64, F64))
    requires
        0 <= rf < 2,
    ensures
        ({
            let (d, l) = (c.g.libs[lib as int].header, c.g.libs[measured_by(c, load)].header);
            let (delay, slew) = c.adjust(lib, load, rf, wire);
            let span = d.slew_upper_threshold[rf] - d.slew_lower_threshold[rf];
            let own = l.slew_upper_threshold[rf] - l.slew_lower_threshold[rf];
            let later = wire.1.narrowed() * ((l.input_threshold[rf] - d.output_threshold[rf]) / span);
            &&& measured_by(c, load) == lib ==> delay == wire.0 && slew == wire.1
            &&& measured_by(c, load) != lib && rf == RISE ==> delay == wire.0 + later.widened()
            &&& measured_by(c, load) != lib && rf != RISE ==> delay == wire.0 + (-later).widened()
            &&& measured_by(c, load) != lib ==> slew == wire.1 * ((own / l.slew_derate) / (span
                / d.slew_derate)).widened()
        }),
{
}

/// The first Elmore delay of a node of a name.
pub open spec fn first_delay(list: Seq<(int, F32)>, names: Seq<Seq<char>>, name: Seq<char>, i: int) -> bool {
    &&& 0 <= i < list.len()
    &&& names[list[i].0] == name
    &&& forall|k: int| 0 <= k < i ==> names[(#[trigger] list[k]).0] != name
}

proof fn lemma_first_delay(list: Seq<(int, F32)>, names: Seq<Seq<char>>, name: Seq<char>, from: int, i: int)
    requires
        0 <= from <= i,
        first_delay(list, names, name, i),
    ensures
        delays::elmore_named(list, names, name, from) == Some(list[i].1),
    decreases i - from,
{
    if from < i {
        assert(names[list[from].0] != name);
        lemma_first_delay(list, names, name, from + 1, i);
    }
}

/// The wire of an arc that drives a parasitic takes the wire delay and slew of the load's own Elmore
/// delay, moved to the load's thresholds; the wire of one that drives none takes no time and hands
/// on the driver's slew.
pub proof fn lemma_wire_of_an_arc(
    c: CalcView,
    v: int,
    w: int,
    rf: int,
    slew: F64,
    d: Option<DmpView>,
    p: crate::parasitics::PiElmoreView,
    names: Seq<Seq<char>>,
    i: int,
)
    ensures
        ({
            let load = c.g.edges[w].to as int;
            let r = merges::wire_result(c, v, w, rf, slew, d, Some((p, names)));
            let lib = c.g.vertices[v].lib->0;
            &&& d matches Some(s) ==> (first_delay(p.elmore, names, c.g.vertices[load].name, i) ==> r == c.adjust(
                lib,
                load,
                rf,
                s.load_result(p.elmore[i].1.widened()),
            ))
            &&& d is None ==> r == c.adjust(lib, load, rf, (F64(0), slew.narrowed().widened()))
        }),
{
    let name = c.g.vertices[c.g.edges[w].to as int].name;
    if first_delay(p.elmore, names, name, i) {
        lemma_first_delay(p.elmore, names, name, 0, i);
    }
}

} // verus!
