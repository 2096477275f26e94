//! Delay calculation over the timing graph.
//!
//! - A root driver (an input port with no drive) has slew 0; its loads' wire delays and slews come
//!   from the input-port delay (the Elmore delay at the load's thresholds), set, not merged.
//! - A driver pin starts at the min/max initial value (max: -1e30, min: +1e30) and takes, over
//!   every arc of every in-edge, the slew that is fuzzily worse (max: greater); its loads' slews
//!   and wire delays merge the same way per output transition; a transition no arc drives is
//!   zeroed (slew 0, wire delays 0, load slews 0).
//! - A gate arc's input slew is its from-pin's slew for the arc's from transition and this min/max
//!   (propagated clocks: never an ideal clock slew here).
//! - The parasitic is the pi model reduced from the net's network at the pin caps of this
//!   transition and min/max; it is dropped when its total is under the net's pin cap, and without
//!   one a gate is lumped at that pin cap (wire delay 0, load slew that of the driver).
//! - A timing check's delay reads the clock pin's slew from the opposite min/max (on-chip
//!   variation) and the data pin's from its own.
//! - Every merge compares fuzzily, which is not transitive, so a driver's in-edges are visited in a
//!   fixed order: newest first, min then max, then each arc in its set.
//!
//! A merge only combines the arcs of one driver, so any topological order serves.

use vstd::prelude::*;
use vstd::hash_map::StringHashMap;
use vstd::string::StringExecFns;
use crate::dcalc;
use crate::dcalc::{Alg, Dmp, DmpView, LibThresholds, ThresholdLogs, Thresholds};
use crate::float32::F32;
use crate::float64::F64;
use crate::fuzzy;
use crate::graph;
use crate::graph::{EdgeKind, Graph, GraphView, Times, Vertex, VertexView};
use crate::liberty;
use crate::liberty::{Arc, ArcSet, ArcView, HeaderView, Library, Model, Role, MAX, RISE};
use crate::names::NameMap;
use crate::netlist::ConnView;
use crate::parasitics;
use crate::parasitics::{Network, NetworkView, NodePins, NodePinsView, PiElmore, PiElmoreView};
use crate::table::{AxisVar, GateModel, GateModelView, Table, TableView};
use crate::text;
use crate::topology;

verus! {

/// 1e30.
pub const MIN_INITIAL: u32 = 0x7149_f2ca;

/// -1e30.
pub const MAX_INITIAL: u32 = 0xf149_f2ca;

/// A net's estimated RC network, nodes named by pin or point.
#[derive(Debug, PartialEq)]
pub struct NetParasitics {
    pub node_names: Vec<String>,
    pub network: Network,
}

/// What a net's parasitics hold.
#[verifier::ext_equal]
pub struct NetParasiticsView {
    pub node_names: Seq<Seq<char>>,
    pub network: NetworkView,
}

impl View for NetParasitics {
    type V = NetParasiticsView;

    open spec fn view(&self) -> NetParasiticsView {
        NetParasiticsView {
            node_names: crate::names::text_views(self.node_names@),
            network: self.network@,
        }
    }
}

impl Clone for NetParasitics {
    fn clone(&self) -> (r: NetParasitics)
        ensures
            r@ == self@,
    {
        let node_names: Vec<String> = self.node_names.clone();
        assert(crate::names::text_views(node_names@) =~= crate::names::text_views(self.node_names@));
        NetParasitics { node_names, network: self.network.clone() }
    }
}

impl Default for NetParasitics {
    fn default() -> (r: NetParasitics)
        ensures
            r@.node_names.len() == 0,
            r@.network.node_caps.len() == 0,
            r@.network.resistors.len() == 0,
    {
        NetParasitics { node_names: Vec::new(), network: Network::default() }
    }
}

pub open spec fn parasitic_views(m: Map<Seq<char>, NetParasitics>) -> Map<Seq<char>, NetParasiticsView> {
    Map::new(|k: Seq<char>| m.contains_key(k), |k: Seq<char>| m[k]@)
}

/// The logarithms of a library's thresholds, per `[rise, fall]`: those a driver's output waveform
/// is measured at, and those an input is.
#[derive(Debug, Clone, Copy, PartialEq)]
pub struct LibraryLogs {
    pub output: [ThresholdLogs; 2],
    pub input: [ThresholdLogs; 2],
}

/// The thresholds of a driver of a library.
pub open spec fn output_thresholds(h: HeaderView, rf: int) -> Thresholds {
    Thresholds {
        vth: h.output_threshold[rf],
        vl: h.slew_lower_threshold[rf],
        vh: h.slew_upper_threshold[rf],
        slew_derate: h.slew_derate,
    }
}

/// The thresholds of a load of a library.
pub open spec fn input_thresholds(h: HeaderView, rf: int) -> Thresholds {
    Thresholds { vth: h.input_threshold[rf], ..output_thresholds(h, rf) }
}

pub open spec fn lib_thresholds(h: HeaderView, rf: int) -> LibThresholds {
    LibThresholds {
        output: h.output_threshold[rf],
        input: h.input_threshold[rf],
        lower: h.slew_lower_threshold[rf],
        upper: h.slew_upper_threshold[rf],
        derate: h.slew_derate,
    }
}

impl Library {
    /// The thresholds that a driver's output transition is measured at.
    pub fn output_thresholds(&self, rf: usize) -> (r: Thresholds)
        requires
            rf < 2,
        ensures
            r == output_thresholds(self.header(), rf as int),
    {
        Thresholds {
            vth: self.output_threshold[rf],
            vl: self.slew_lower_threshold[rf],
            vh: self.slew_upper_threshold[rf],
            slew_derate: self.slew_derate,
        }
    }

    /// The thresholds that a load's input transition is measured at.
    pub fn input_thresholds(&self, rf: usize) -> (r: Thresholds)
        requires
            rf < 2,
        ensures
            r == input_thresholds(self.header(), rf as int),
    {
        Thresholds {
            vth: self.input_threshold[rf],
            vl: self.slew_lower_threshold[rf],
            vh: self.slew_upper_threshold[rf],
            slew_derate: self.slew_derate,
        }
    }

    fn lib_thresholds(&self, rf: usize) -> (r: LibThresholds)
        requires
            rf < 2,
        ensures
            r == lib_thresholds(self.header(), rf as int),
    {
        LibThresholds {
            output: self.output_threshold[rf],
            input: self.input_threshold[rf],
            lower: self.slew_lower_threshold[rf],
            upper: self.slew_upper_threshold[rf],
            derate: self.slew_derate,
        }
    }
}

/// Fuzzily worse for this min/max.
pub open spec fn worse(mm: int, a: F32, b: F32) -> bool {
    if mm == MAX {
        fuzzy::above(a, b)
    } else {
        fuzzy::below(a, b)
    }
}

impl Times {
    pub open spec fn with_slew(self, v: int, rf: int, mm: int, x: F32) -> Times {
        Times { slew: self.slew.update(v, self.slew[v].update(rf, self.slew[v][rf].update(mm, x))), ..self }
    }

    pub open spec fn with_delay(self, e: int, k: int, mm: int, x: F32) -> Times {
        Times { delay: self.delay.update(e, self.delay[e].update(k, self.delay[e][k].update(mm, x))), ..self }
    }

    /// Both transitions of a vertex at a pair of min and max slews.
    pub open spec fn with_slews(self, v: int, pair: Seq<F32>) -> Times {
        Times { slew: self.slew.update(v, seq![pair, pair]), ..self }
    }

    /// Both transitions of a wire at a pair of min and max delays.
    pub open spec fn with_delays(self, e: int, pair: Seq<F32>) -> Times {
        Times { delay: self.delay.update(e, seq![pair, pair]), ..self }
    }

    /// A slew kept where it is fuzzily worse.
    pub open spec fn merge_slew(self, v: int, rf: int, mm: int, x: F32) -> Times {
        if worse(mm, x, self.slew[v][rf][mm]) {
            self.with_slew(v, rf, mm, x)
        } else {
            self
        }
    }

    /// A delay kept where it is fuzzily worse.
    pub open spec fn merge_delay(self, e: int, k: int, mm: int, x: F32) -> Times {
        if worse(mm, x, self.delay[e][k][mm]) {
            self.with_delay(e, k, mm, x)
        } else {
            self
        }
    }
}

pub open spec fn zero_pair() -> Seq<F32> {
    seq![F32(0), F32(0)]
}

pub open spec fn initial_pair() -> Seq<F32> {
    seq![F32(MIN_INITIAL), F32(MAX_INITIAL)]
}

/// Slews and delays so far, and the trace where one is kept.
#[verifier::ext_equal]
pub struct Run {
    pub times: Times,
    pub trace: Option<Seq<Seq<char>>>,
}

impl Run {
    pub open spec fn note(self, line: Seq<char>) -> Run {
        match self.trace {
            Some(t) => Run { trace: Some(t.push(line)), ..self },
            None => self,
        }
    }

    pub open spec fn at(self, times: Times) -> Run {
        Run { times, ..self }
    }
}

/// A run goes on, or ends where it stands for a reason.
pub type Step = Result<Run, (Run, Seq<char>)>;

/// A reduced parasitic and the names of its nodes.
pub type Reduced = (PiElmoreView, Seq<Seq<char>>);

/// The first place of a name.
pub open spec fn first_place(names: Seq<Seq<char>>, name: Seq<char>, i: int) -> Option<int>
    decreases names.len() - i,
{
    if i < 0 || i >= names.len() {
        None
    } else if names[i] == name {
        Some(i)
    } else {
        first_place(names, name, i + 1)
    }
}

/// The first Elmore delay of a node of a name.
pub open spec fn elmore_named(delays: Seq<(int, F32)>, names: Seq<Seq<char>>, name: Seq<char>, i: int) -> Option<F32>
    decreases delays.len() - i,
{
    if i < 0 || i >= delays.len() {
        None
    } else if names[delays[i].0] == name {
        Some(delays[i].1)
    } else {
        elmore_named(delays, names, name, i + 1)
    }
}

/// The Elmore delay of a load of a parasitic, if there is one.
pub open spec fn load_elmore(pe: Option<Reduced>, load: Seq<char>) -> Option<F32> {
    match pe {
        Some((p, names)) => elmore_named(p.elmore, names, load, 0),
        None => None,
    }
}

/// Every edge of a list is a wire.
pub open spec fn all_wires(g: GraphView, wires: Seq<usize>) -> bool {
    forall|i: int|
        0 <= i < wires.len() ==> (#[trigger] wires[i]) < g.edges.len() && g.edges[wires[i] as int].kind is Wire
}

/// Every edge of a list ends at a vertex.
pub open spec fn all_into(g: GraphView, edges: Seq<usize>, v: int) -> bool {
    forall|i: int|
        0 <= i < edges.len() ==> (#[trigger] edges[i]) < g.edges.len() && g.edges[edges[i] as int].to == v
}

pub open spec fn edge_mark(rf: nat) -> Seq<char> {
    if rf == RISE {
        "^"@
    } else {
        "v"@
    }
}

pub open spec fn alg_name(a: Alg) -> Seq<char> {
    match a {
        Alg::Cap => "cap"@,
        Alg::Pi => "Pi"@,
        Alg::ZeroC2 => "c2=0"@,
    }
}

pub open spec fn hex32(x: F32) -> Seq<char> {
    text::hex(x.0 as nat, 8)
}

pub open spec fn hex64(x: F64) -> Seq<char> {
    text::hex(x.0 as nat, 16)
}

/// The trace of a gate's delay calculation.
pub open spec fn gate_line(
    name: Seq<char>,
    arc: ArcView,
    in_slew: F32,
    p: PiElmoreView,
    d: DmpView,
    delay: F64,
    slew: F64,
) -> Seq<char> {
    "dcalc|gate|"@ + name + "|"@ + edge_mark(arc.from_rf) + edge_mark(arc.to_rf) + "|"@ + hex32(in_slew) + "|"@
        + hex32(p.c2) + "|"@ + hex32(p.rpi) + "|"@ + hex32(p.c1) + "|"@ + alg_name(d.alg) + "|"@ + hex64(d.rd)
        + "|"@ + hex64(d.t0) + "|"@ + hex64(d.dt) + "|"@ + hex64(d.ceff) + "|"@ + (if d.driver_valid {
        "1"@
    } else {
        "0"@
    }) + "|"@ + hex64(delay) + "|"@ + hex64(slew)
}

/// The trace of a load's delay calculation.
pub open spec fn load_line(driver: Seq<char>, load: Seq<char>, delay: F64, slew: F64) -> Seq<char> {
    "dcalc|load|"@ + driver + "|"@ + load + "|"@ + hex64(delay) + "|"@ + hex64(slew)
}

pub open spec fn outside_table() -> Seq<char> {
    "a table lookup reads outside its table"@
}

/// What delays are calculated from.
#[verifier::ext_equal]
pub struct CalcView {
    pub g: GraphView,
    pub logs: Seq<LibraryLogs>,
    pub parasitics: Map<Seq<char>, NetParasiticsView>,
}

impl CalcView {
    pub open spec fn index(self) -> Map<Seq<char>, usize> {
        graph::name_index(self.g.vertices)
    }

    pub open spec fn pin_cap(self, v: int, rf: int, mm: int) -> F32 {
        let x = self.g.vertices[v];
        if x.lib is Some && x.cell is Some && x.port is Some {
            match liberty::port_named(self.g.cell_of(v).ports, x.port->0) {
                Some(p) => p.capacitance[rf][mm],
                None => F32(0),
            }
        } else {
            F32(0)
        }
    }

    /// The capacitance of pins, in their order.
    pub open spec fn cap_sum(self, pins: Seq<ConnView>, rf: int, mm: int) -> F32
        decreases pins.len(),
    {
        if pins.len() == 0 {
            F32(0)
        } else {
            let before = self.cap_sum(pins.drop_last(), rf, mm);
            let name = self.g.netlist.pin_name(pins.last());
            if self.index().contains_key(name) {
                before + self.pin_cap(self.index()[name] as int, rf, mm)
            } else {
                before
            }
        }
    }

    /// The net's pin capacitance: every pin on the driver's net, in the net's order.
    pub open spec fn net_pin_cap(self, drvr: int, rf: int, mm: int) -> F32 {
        match self.g.vertex_net[drvr] {
            None => self.pin_cap(drvr, rf, mm),
            Some(n) => self.cap_sum(self.g.netlist.nets[n as int].pins, rf, mm),
        }
    }

    /// What the nodes of a network of `n` nodes are, by their names; one without a name is no pin.
    pub open spec fn node_pins(self, names: Seq<Seq<char>>, n: nat, rf: int, mm: int) -> NodePinsView {
        NodePinsView {
            pin_cap: Seq::new(
                n,
                |i: int|
                    if i < names.len() && self.index().contains_key(names[i]) {
                        self.pin_cap(self.index()[names[i]] as int, rf, mm)
                    } else {
                        F32(0)
                    },
            ),
            is_load: Seq::new(
                n,
                |i: int|
                    i < names.len() && self.index().contains_key(names[i])
                        && !self.g.vertices[self.index()[names[i]] as int].is_driver,
            ),
        }
    }

    /// The pi-Elmore model of a driver's net, for a transition and min/max; none where the net has
    /// no parasitics or the driver no node in them.
    pub open spec fn reduce(self, drvr: int, rf: int, mm: int) -> Option<Reduced> {
        match self.g.vertex_net[drvr] {
            None => None,
            Some(n) => {
                let net = self.g.netlist.nets[n as int].name;
                if self.parasitics.contains_key(net) {
                    let np = self.parasitics[net];
                    match first_place(np.node_names, self.g.vertices[drvr].name, 0) {
                        None => None,
                        Some(d) => Some(
                            (
                                np.network.reduced(d, self.node_pins(np.node_names, np.network.len(), rf, mm)),
                                np.node_names,
                            ),
                        ),
                    }
                } else {
                    None
                }
            },
        }
    }

    /// The library whose thresholds a load uses: a port's is the default (first read) library.
    pub open spec fn threshold_library(self, v: int) -> usize {
        match self.g.vertices[v].lib {
            Some(l) => l,
            None => 0,
        }
    }

    pub open spec fn header(self, lib: usize) -> HeaderView {
        self.g.libs[lib as int].header
    }

    /// A wire delay and load slew moved from the thresholds of a driver's library to a load's.
    pub open spec fn adjust(self, lib: usize, load: int, rf: int, wire: (F64, F64)) -> (F64, F64) {
        let ll = self.threshold_library(load);
        dcalc::adjusted(
            ll == lib,
            lib_thresholds(self.header(lib), rf),
            lib_thresholds(self.header(ll), rf),
            rf == RISE,
            wire.0,
            wire.1,
        )
    }

    /// A root driver's wire `e`: the input-port delay of its load.
    pub open spec fn root_wire(self, pe: Option<Reduced>, e: int, rf: int, mm: int, t: Times) -> Times {
        let load = self.g.edges[e].to as int;
        let ll = self.threshold_library(load);
        let elmore = load_elmore(pe, self.g.vertices[load].name);
        let wire = match elmore {
            Some(el) => dcalc::port_wire_delay_slew(
                F64(0),
                el,
                input_thresholds(self.header(ll), rf),
                self.logs[ll as int].input[rf],
            ),
            None => (F64(0), F64(0)),
        };
        let (delay, slew) = self.adjust(0, load, rf, wire);
        t.with_slew(load, rf, mm, slew.narrowed()).with_delay(e, rf, mm, delay.narrowed())
    }

    pub open spec fn root_wires(
        self,
        pe: Option<Reduced>,
        wires: Seq<usize>,
        k: int,
        rf: int,
        mm: int,
        t: Times,
    ) -> Times
        decreases wires.len() - k,
    {
        if k < 0 || k >= wires.len() {
            t
        } else {
            self.root_wires(pe, wires, k + 1, rf, mm, self.root_wire(pe, wires[k] as int, rf, mm, t))
        }
    }

    /// A root driver's wires for the corners from the `c`th on: rise min, rise max, fall min, fall
    /// max.
    pub open spec fn root_corners(self, v: int, wires: Seq<usize>, c: int, t: Times) -> Times
        decreases 4 - c,
    {
        if c < 0 || c >= 4 {
            t
        } else {
            let (rf, mm) = (c / 2, c % 2);
            self.root_corners(
                v,
                wires,
                c + 1,
                self.root_wires(self.reduce(v, rf, mm), wires, 0, rf, mm, t),
            )
        }
    }

    /// Wires and their loads at the initial values, from the `k`th on.
    pub open spec fn init_wires(self, wires: Seq<usize>, k: int, t: Times) -> Times
        decreases wires.len() - k,
    {
        if k < 0 || k >= wires.len() {
            t
        } else {
            let e = wires[k] as int;
            self.init_wires(
                wires,
                k + 1,
                t.with_slews(self.g.edges[e].to as int, initial_pair()).with_delays(e, initial_pair()),
            )
        }
    }

    /// The parasitic a gate arc drives, unless its total is under the net's pin cap.
    pub open spec fn arc_parasitic(self, v: int, rf: int, mm: int) -> Option<Reduced> {
        match self.reduce(v, rf, mm) {
            Some((p, names)) => if self.net_pin_cap(v, rf, mm).is_le(p.c1 + p.c2) {
                Some((p, names))
            } else {
                None
            },
            None => None,
        }
    }

    /// The delay and slew of a gate arc, and the calculator's state where it drives a parasitic.
    pub open spec fn gate_times(
        self,
        v: int,
        model: GateModelView,
        in_slew: F32,
        rf: int,
        mm: int,
    ) -> Option<(F64, F64, Option<DmpView>)> {
        let lib = self.g.vertices[v].lib->0;
        match self.arc_parasitic(v, rf, mm) {
            Some((p, _)) => match dcalc::initial_state(
                model,
                output_thresholds(self.header(lib), rf),
                self.logs[lib as int].output[rf],
                in_slew,
                p.c2,
                p.rpi,
                p.c1,
            ) {
                None => None,
                Some(d) => match d.gate_result() {
                    None => None,
                    Some((s, (delay, slew))) => Some((delay, slew, Some(s))),
                },
            },
            None => match model.gate_delay(in_slew, self.net_pin_cap(v, rf, mm)) {
                None => None,
                Some((delay, slew)) => Some((delay.widened(), slew.widened(), None)),
            },
        }
    }

    /// The wires of a driver from the `k`th on, merged for one arc.
    pub open spec fn arc_wires(
        self,
        v: int,
        wires: Seq<usize>,
        k: int,
        rf: int,
        mm: int,
        slew: F64,
        d: Option<DmpView>,
        pe: Option<Reduced>,
        run: Run,
    ) -> Run
        decreases wires.len() - k,
    {
        if k < 0 || k >= wires.len() {
            run
        } else {
            let w = wires[k] as int;
            let load = self.g.edges[w].to as int;
            let name = self.g.vertices[load].name;
            let elmore = load_elmore(pe, name);
            let wire = match (d, elmore) {
                (Some(s), Some(el)) => s.load_result(el.widened()),
                (Some(_), None) => (F64(0), slew),
                (None, _) => (F64(0), slew.narrowed().widened()),
            };
            let next = match (d, elmore) {
                (Some(s), Some(el)) => Some(s.at_load(el.widened())),
                _ => d,
            };
            let noted = if d is Some {
                run.note(load_line(self.g.vertices[v].name, name, wire.0, wire.1))
            } else {
                run
            };
            let (delay, load_slew) = self.adjust(self.g.vertices[v].lib->0, load, rf, wire);
            let merged = noted.times.merge_slew(load, rf, mm, load_slew.narrowed()).merge_delay(
                w,
                rf,
                mm,
                delay.narrowed(),
            );
            self.arc_wires(v, wires, k + 1, rf, mm, slew, next, pe, noted.at(merged))
        }
    }

    /// A driver's arc `k` of edge `e` merged: its slew, its delay, its wires.
    pub open spec fn gate_arc(
        self,
        v: int,
        wires: Seq<usize>,
        e: int,
        k: int,
        mm: int,
        run: Run,
    ) -> Step {
        let arc = self.g.arc_set(e).arcs[k];
        let rf = arc.to_rf as int;
        let in_slew = run.times.slew[self.g.edges[e].from as int][arc.from_rf as int][mm];
        let pe = self.arc_parasitic(v, rf, mm);
        match self.gate_times(v, arc.model->Gate_0, in_slew, rf, mm) {
            None => Err((run, outside_table())),
            Some((delay, slew, d)) => {
                let noted = match (d, pe) {
                    (Some(s), Some((p, _))) => run.note(
                        gate_line(self.g.vertices[v].name, arc, in_slew, p, s, delay, slew),
                    ),
                    _ => run,
                };
                let t = noted.times.merge_slew(v, rf, mm, slew.narrowed()).with_delay(
                    e,
                    k,
                    mm,
                    delay.narrowed(),
                );
                Ok(self.arc_wires(v, wires, 0, rf, mm, slew, d, pe, noted.at(t)))
            },
        }
    }

    /// The arcs of edge `e` from arc `k` of `mm` on: min then max, each arc in its set.
    pub open spec fn edge_arcs(
        self,
        v: int,
        wires: Seq<usize>,
        e: int,
        mm: int,
        k: int,
        run: Run,
    ) -> Step
        decreases 2 - mm, self.g.arc_set(e).arcs.len() - k,
    {
        let arcs = self.g.arc_set(e).arcs;
        if mm < 0 || mm >= 2 || k < 0 {
            Ok(run)
        } else if k >= arcs.len() {
            self.edge_arcs(v, wires, e, mm + 1, 0, run)
        } else if !(arcs[k].model is Gate) {
            self.edge_arcs(v, wires, e, mm, k + 1, run)
        } else {
            match self.gate_arc(v, wires, e, k, mm, run) {
                Err(x) => Err(x),
                Ok(r) => self.edge_arcs(v, wires, e, mm, k + 1, r),
            }
        }
    }

    /// The in-edges of a driver from the `i`th down to the first: newest first.
    pub open spec fn fanin_edges(self, v: int, wires: Seq<usize>, fanin: Seq<usize>, i: int, run: Run) -> Step
        decreases i,
    {
        if i <= 0 {
            Ok(run)
        } else {
            let e = fanin[i - 1] as int;
            if self.g.edges[e].kind is Wire {
                self.fanin_edges(v, wires, fanin, i - 1, run)
            } else if self.g.arc_set(e).role is LatchDtoQ {
                Err((run, "latch D->Q arcs are not modelled"@))
            } else {
                match self.edge_arcs(v, wires, e, 0, 0, run) {
                    Err(x) => Err(x),
                    Ok(r) => self.fanin_edges(v, wires, fanin, i - 1, r),
                }
            }
        }
    }

    /// Some gate arc of a fanin edge drives the transition.
    pub open spec fn drives(self, fanin: Seq<usize>, rf: int) -> bool {
        exists|i: int| 0 <= i < fanin.len() && #[trigger] edge_drives(self.g, fanin[i] as int, rf)
    }

    /// The wires from the `k`th on at 0 for a corner.
    pub open spec fn clear_wires(self, wires: Seq<usize>, k: int, rf: int, mm: int, t: Times) -> Times
        decreases wires.len() - k,
    {
        if k < 0 || k >= wires.len() {
            t
        } else {
            let w = wires[k] as int;
            self.clear_wires(
                wires,
                k + 1,
                rf,
                mm,
                t.with_delay(w, rf, mm, F32(0)).with_slew(self.g.edges[w].to as int, rf, mm, F32(0)),
            )
        }
    }

    /// The corners from the `c`th on of transitions that no arc drives, at 0.
    pub open spec fn clear_undriven(
        self,
        v: int,
        wires: Seq<usize>,
        fanin: Seq<usize>,
        c: int,
        t: Times,
    ) -> Times
        decreases 4 - c,
    {
        if c < 0 || c >= 4 {
            t
        } else {
            let (rf, mm) = (c / 2, c % 2);
            self.clear_undriven(
                v,
                wires,
                fanin,
                c + 1,
                if self.drives(fanin, rf) {
                    t
                } else {
                    self.clear_wires(wires, 0, rf, mm, t.with_slew(v, rf, mm, F32(0)))
                },
            )
        }
    }

    /// One vertex's slews, its out-wires' delays and its loads' slews.
    pub open spec fn visit(self, v: int, run: Run) -> Step {
        let fanin = propagating(self.g, self.g.in_edges[v]);
        let wires = wires_among(self.g, self.g.out_edges[v]);
        if !self.g.vertices[v].is_driver {
            if fanin.len() == 0 {
                Ok(run.at(run.times.with_slews(v, zero_pair())))
            } else {
                Ok(run)
            }
        } else if fanin.len() == 0 {
            Ok(run.at(self.root_corners(v, wires, 0, run.times.with_slews(v, zero_pair()))))
        } else {
            self.driven(v, wires, fanin, run)
        }
    }

    /// A driver with in-edges: initial values, every arc merged, what no arc drives zeroed.
    pub open spec fn driven(self, v: int, wires: Seq<usize>, fanin: Seq<usize>, run: Run) -> Step {
        let start = self.init_wires(wires, 0, run.times).with_slews(v, initial_pair());
        match self.fanin_edges(v, wires, fanin, fanin.len() as int, run.at(start)) {
            Err(x) => Err(x),
            Ok(r) => Ok(r.at(self.clear_undriven(v, wires, fanin, 0, r.times))),
        }
    }

    /// The vertices of an order from the `i`th on.
    pub open spec fn visit_all(self, order: Seq<usize>, i: int, run: Run) -> Step
        decreases order.len() - i,
    {
        if i < 0 || i >= order.len() {
            Ok(run)
        } else {
            match self.visit(order[i] as int, run) {
                Err(x) => Err(x),
                Ok(r) => self.visit_all(order, i + 1, r),
            }
        }
    }

    /// The delay of a check's arc: the clock pin's slew of the opposite min/max, the data pin's of
    /// its own.
    pub open spec fn check_delay(self, e: int, arc: ArcView, table: TableView, mm: int, t: Times) -> Option<F32> {
        let clk = t.slew[self.g.edges[e].from as int][arc.from_rf as int][1 - mm];
        let data = t.slew[self.g.edges[e].to as int][arc.to_rf as int][mm];
        table.value_at(
            check_pick(table, 0, clk, data),
            check_pick(table, 1, clk, data),
            check_pick(table, 2, clk, data),
        )
    }

    /// The arcs of check `e` from arc `k` and `mm` on.
    pub open spec fn check_arcs(self, e: int, k: int, mm: int, run: Run) -> Step
        decreases self.g.arc_set(e).arcs.len() - k, 2 - mm,
    {
        let arcs = self.g.arc_set(e).arcs;
        if k < 0 || k >= arcs.len() || mm < 0 {
            Ok(run)
        } else if mm >= 2 || !(arcs[k].model is Check) {
            self.check_arcs(e, k + 1, 0, run)
        } else {
            match self.check_delay(e, arcs[k], arcs[k].model->Check_0, mm, run.times) {
                None => Err((run, outside_table())),
                Some(x) => self.check_arcs(e, k, mm + 1, run.at(run.times.with_delay(e, k, mm, x))),
            }
        }
    }

    /// The timing checks from edge `e` on.
    pub open spec fn check_edges(self, e: int, run: Run) -> Step
        decreases self.g.edges.len() - e,
    {
        if e < 0 || e >= self.g.edges.len() {
            Ok(run)
        } else if !self.g.checks(e) {
            self.check_edges(e + 1, run)
        } else {
            match self.check_arcs(e, 0, 0, run) {
                Err(x) => Err(x),
                Ok(r) => self.check_edges(e + 1, r),
            }
        }
    }

    /// Every vertex in order, then the timing checks.
    pub open spec fn delays(self, run: Run) -> Step {
        match topology::order_of(self.g) {
            None => Err((run, "the timing graph has a loop — not modelled"@)),
            Some(order) => match self.visit_all(order, 0, run) {
                Err(x) => Err(x),
                Ok(r) => self.check_edges(0, r),
            },
        }
    }

    /// Where a driver has a node in the parasitics of its net, the node is one of the network, whose
    /// resistors end on nodes of it.
    pub open spec fn placed(self, v: int) -> bool {
        self.g.vertices[v].is_driver ==> (self.g.vertex_net[v] matches Some(n) ==> {
            let net = self.g.netlist.nets[n as int].name;
            let np = self.parasitics[net];
            self.parasitics.contains_key(net) ==> (first_place(
                np.node_names,
                self.g.vertices[v].name,
                0,
            ) matches Some(d) ==> d < np.network.len() && np.network.valid())
        })
    }

    /// Every arc goes between two transitions, every library has its logarithms, every driver its
    /// node in the parasitics of its net; a wire needs a library to take a port's thresholds from.
    pub open spec fn valid(self) -> bool {
        &&& self.g.valid()
        &&& self.g.edges.len() > 0 ==> self.g.libs.len() > 0
        &&& self.logs.len() == self.g.libs.len()
        &&& self.g.libs_valid()
        &&& forall|v: int| 0 <= v < self.g.vertices.len() ==> #[trigger] self.placed(v)
    }
}

/// A name is found among its names.
proof fn lemma_first_place(names: Seq<Seq<char>>, name: Seq<char>, i: int)
    ensures
        first_place(names, name, i) matches Some(d) ==> 0 <= d < names.len(),
    decreases names.len() - i,
{
    if 0 <= i < names.len() {
        lemma_first_place(names, name, i + 1);
    }
}

/// Every driver has its node where no net has more names than nodes, and every resistor ends on
/// nodes of its network.
pub proof fn lemma_named_nodes_are_placed(c: CalcView)
    requires
        forall|n: Seq<char>|
            c.parasitics.contains_key(n) ==> (#[trigger] c.parasitics[n]).node_names.len()
                <= c.parasitics[n].network.len() && c.parasitics[n].network.valid(),
    ensures
        forall|v: int| #[trigger] c.placed(v),
{
    assert forall|v: int| #[trigger] c.placed(v) by {
        if let Some(n) = c.g.vertex_net[v] {
            let np = c.parasitics[c.g.netlist.nets[n as int].name];
            lemma_first_place(np.node_names, c.g.vertices[v].name, 0);
        }
    }
}

/// Some gate arc of an edge drives the transition.
pub open spec fn edge_drives(g: GraphView, e: int, rf: int) -> bool {
    &&& g.edges[e].kind is Gate
    &&& exists|k: int|
        0 <= k < g.arc_set(e).arcs.len() && (#[trigger] g.arc_set(e).arcs[k]).model is Gate && g.arc_set(
            e,
        ).arcs[k].to_rf == rf
}

/// What axis `a` of a check's table is looked up with.
pub open spec fn check_pick(t: TableView, a: int, clk: F32, data: F32) -> F32 {
    if a >= t.axes.len() {
        F32(0)
    } else {
        match t.axes[a].var {
            AxisVar::RelatedPinTransition => clk,
            AxisVar::ConstrainedPinTransition => data,
            _ => F32(0),
        }
    }
}

/// The edges among a list that propagate.
pub open spec fn propagating(g: GraphView, edges: Seq<usize>) -> Seq<usize>
    decreases edges.len(),
{
    if edges.len() == 0 {
        Seq::empty()
    } else {
        let before = propagating(g, edges.drop_last());
        if g.checks(edges.last() as int) {
            before
        } else {
            before.push(edges.last())
        }
    }
}

/// The wires among a list of edges.
pub open spec fn wires_among(g: GraphView, edges: Seq<usize>) -> Seq<usize>
    decreases edges.len(),
{
    if edges.len() == 0 {
        Seq::empty()
    } else {
        let before = wires_among(g, edges.drop_last());
        if g.edges[edges.last() as int].kind is Wire {
            before.push(edges.last())
        } else {
            before
        }
    }
}

/// Slews and delays while they are calculated.
struct Tables {
    slew: Vec<[[F32; 2]; 2]>,
    delay: Vec<Vec<[F32; 2]>>,
}

impl Tables {
    spec fn seen(self) -> Times {
        Times { slew: graph::slew_views(self.slew@), delay: graph::arc_delay_views(self.delay@) }
    }

    fn slew(&self, v: usize, rf: usize, mm: usize) -> (r: F32)
        requires
            v < self.slew@.len(),
            rf < 2,
            mm < 2,
        ensures
            r == self.seen().slew[v as int][rf as int][mm as int],
    {
        self.slew[v][rf][mm]
    }

    fn set_slew(&mut self, v: usize, rf: usize, mm: usize, x: F32, Ghost(g): Ghost<GraphView>)
        requires
            old(self).seen().fits(g),
            v < g.vertices.len(),
            rf < 2,
            mm < 2,
        ensures
            final(self).seen() == old(self).seen().with_slew(v as int, rf as int, mm as int, x),
            final(self).seen().fits(g),
    {
        let ghost before = self.seen();
        self.slew[v][rf][mm] = x;
        let ghost want = before.with_slew(v as int, rf as int, mm as int, x);
        assert(self.seen().slew[v as int][rf as int] =~= want.slew[v as int][rf as int]);
        assert(self.seen().slew[v as int] =~= want.slew[v as int]);
        assert(self.seen().slew =~= want.slew);
    }

    fn set_delay(&mut self, e: usize, k: usize, mm: usize, x: F32, Ghost(g): Ghost<GraphView>)
        requires
            old(self).seen().fits(g),
            e < g.edges.len(),
            k < old(self).seen().delay[e as int].len(),
            mm < 2,
        ensures
            final(self).seen() == old(self).seen().with_delay(e as int, k as int, mm as int, x),
            final(self).seen().fits(g),
    {
        let ghost before = self.seen();
        self.delay[e][k][mm] = x;
        let ghost want = before.with_delay(e as int, k as int, mm as int, x);
        assert(self.seen().delay[e as int][k as int] =~= want.delay[e as int][k as int]);
        assert(self.seen().delay[e as int] =~= want.delay[e as int]);
        assert(self.seen().delay =~= want.delay);
        assert forall|f: int, j: int|
            0 <= f < want.delay.len() && 0 <= j < want.delay[f].len() implies (#[trigger] want.delay[f][j]).len()
                == 2 by {
            if f == e && j == k {
            } else {
                assert(want.delay[f][j] == before.delay[f][j]);
            }
        }
        assert forall|f: int| 0 <= f < want.delay.len() implies (#[trigger] want.delay[f]).len() == before.delay[f].len() by {}
    }

    fn delay(&self, e: usize, k: usize, mm: usize) -> (r: F32)
        requires
            e < self.delay@.len(),
            k < self.seen().delay[e as int].len(),
            mm < 2,
        ensures
            r == self.seen().delay[e as int][k as int][mm as int],
    {
        self.delay[e][k][mm]
    }

    fn fill_slew(&mut self, v: usize, low: F32, high: F32, Ghost(g): Ghost<GraphView>)
        requires
            old(self).seen().fits(g),
            v < g.vertices.len(),
        ensures
            final(self).seen() == old(self).seen().with_slews(v as int, seq![low, high]),
            final(self).seen().fits(g),
    {
        let ghost before = self.seen();
        let both: [[F32; 2]; 2] = [[low, high], [low, high]];
        self.slew.set(v, both);
        let ghost want = before.with_slews(v as int, seq![low, high]);
        assert(both[0]@ =~= seq![low, high]);
        assert(both[1]@ =~= seq![low, high]);
        assert(self.seen().slew[v as int] =~= want.slew[v as int]);
        assert(self.seen().slew =~= want.slew);
    }

    fn fill_delay(&mut self, e: usize, low: F32, high: F32, Ghost(g): Ghost<GraphView>)
        requires
            old(self).seen().fits(g),
            e < g.edges.len(),
            g.edges[e as int].kind is Wire,
        ensures
            final(self).seen() == old(self).seen().with_delays(e as int, seq![low, high]),
            final(self).seen().fits(g),
    {
        let ghost before = self.seen();
        let mut both: Vec<[F32; 2]> = Vec::new();
        both.push([low, high]);
        both.push([low, high]);
        assert(both@[0]@ =~= seq![low, high]);
        assert(both@[1]@ =~= seq![low, high]);
        assert(graph::pair_views(both@) =~= seq![seq![low, high], seq![low, high]]);
        self.delay.set(e, both);
        let ghost want = before.with_delays(e as int, seq![low, high]);
        assert(self.seen().delay =~= want.delay);
        assert forall|f: int, j: int|
            0 <= f < want.delay.len() && 0 <= j < want.delay[f].len() implies (#[trigger] want.delay[f][j]).len()
                == 2 by {
            if f != e {
                assert(want.delay[f][j] == before.delay[f][j]);
            }
        }
        assert forall|f: int| 0 <= f < want.delay.len() implies (#[trigger] want.delay[f]).len() == before.delay[f].len() by {
            if f == e {
                assert(before.delay[f].len() == 2);
            }
        }
    }

    fn merge_slew(&mut self, v: usize, rf: usize, mm: usize, x: F32, Ghost(g): Ghost<GraphView>)
        requires
            old(self).seen().fits(g),
            v < g.vertices.len(),
            rf < 2,
            mm < 2,
        ensures
            final(self).seen() == old(self).seen().merge_slew(v as int, rf as int, mm as int, x),
            final(self).seen().fits(g),
    {
        if is_worse(mm, x, self.slew(v, rf, mm)) {
            self.set_slew(v, rf, mm, x, Ghost(g));
        }
    }

    fn merge_delay(&mut self, e: usize, k: usize, mm: usize, x: F32, Ghost(g): Ghost<GraphView>)
        requires
            old(self).seen().fits(g),
            e < g.edges.len(),
            k < old(self).seen().delay[e as int].len(),
            mm < 2,
        ensures
            final(self).seen() == old(self).seen().merge_delay(e as int, k as int, mm as int, x),
            final(self).seen().fits(g),
    {
        if is_worse(mm, x, self.delay(e, k, mm)) {
            self.set_delay(e, k, mm, x, Ghost(g));
        }
    }
}

/// Fuzzily worse for this min/max.
pub(crate) fn is_worse(mm: usize, a: F32, b: F32) -> (r: bool)
    ensures
        r == worse(mm as int, a, b),
{
    if mm == MAX {
        fuzzy::greater(a, b)
    } else {
        fuzzy::less(a, b)
    }
}

/// A trace, where one is kept.
pub open spec fn trace_view(t: Option<Vec<String>>) -> Option<Seq<Seq<char>>> {
    match t {
        Some(v) => Some(crate::names::text_views(v@)),
        None => None,
    }
}

spec fn run_of(t: Tables, trace: Option<Vec<String>>) -> Run {
    Run { times: t.seen(), trace: trace_view(trace) }
}

fn note(trace: &mut Option<Vec<String>>, line: String)
    ensures
        forall|t: Times|
            (#[trigger] Run { times: t, trace: trace_view(*old(trace)) }.note(line@)) == (Run {
                times: t,
                trace: trace_view(*final(trace)),
            }),
{
    match trace {
        Some(lines) => {
            let ghost before = crate::names::text_views(lines@);
            let ghost next = line@;
            lines.push(line);
            assert(crate::names::text_views(lines@) =~= before.push(next));
        },
        None => {},
    }
}

fn mark(rf: usize) -> (r: &'static str)
    ensures
        r@ == edge_mark(rf as nat),
{
    if rf == RISE {
        "^"
    } else {
        "v"
    }
}

fn push32(s: &mut String, x: F32)
    ensures
        final(s)@ == old(s)@ + hex32(x),
{
    s.append(text::hex_text(x.to_bits() as u64, 8).as_str());
}

fn push64(s: &mut String, x: F64)
    ensures
        final(s)@ == old(s)@ + hex64(x),
{
    s.append(text::hex_text(x.to_bits(), 16).as_str());
}

fn gate_text(name: &str, arc: &Arc, in_slew: F32, p: &PiElmore, d: &Dmp, delay: F64, slew: F64) -> (r: String)
    ensures
        r@ == gate_line(name@, arc@, in_slew, p@, d@, delay, slew),
{
    let (rd, t0, dt, ceff): (F64, F64, F64, F64) = d.state();
    let mut s: String = text::join("dcalc|gate|", name);
    s.append("|");
    s.append(mark(arc.from_rf));
    s.append(mark(arc.to_rf));
    s.append("|");
    push32(&mut s, in_slew);
    s.append("|");
    push32(&mut s, p.c2);
    s.append("|");
    push32(&mut s, p.rpi);
    s.append("|");
    push32(&mut s, p.c1);
    s.append("|");
    s.append(
        match d.algorithm() {
            Alg::Cap => "cap",
            Alg::Pi => "Pi",
            Alg::ZeroC2 => "c2=0",
        },
    );
    s.append("|");
    push64(&mut s, rd);
    s.append("|");
    push64(&mut s, t0);
    s.append("|");
    push64(&mut s, dt);
    s.append("|");
    push64(&mut s, ceff);
    s.append("|");
    s.append(
        if d.driver_valid() {
            "1"
        } else {
            "0"
        },
    );
    s.append("|");
    push64(&mut s, delay);
    s.append("|");
    push64(&mut s, slew);
    s
}

fn load_text(driver: &str, load: &str, delay: F64, slew: F64) -> (r: String)
    ensures
        r@ == load_line(driver@, load@, delay, slew),
{
    let mut s: String = text::join("dcalc|load|", driver);
    s.append("|");
    s.append(load);
    s.append("|");
    push64(&mut s, delay);
    s.append("|");
    push64(&mut s, slew);
    s
}

/// What delays are calculated from.
struct Calc<'g, 'a> {
    g: &'g Graph<'a>,
    logs: &'g Vec<LibraryLogs>,
    parasitics: &'g NameMap<NetParasitics>,
    index: StringHashMap<usize>,
}

/// A reduced parasitic and the names of its nodes.
struct Pi<'g> {
    p: PiElmore,
    names: &'g Vec<String>,
}

spec fn pi_view(p: Option<Pi>) -> Option<Reduced> {
    match p {
        Some(p) => Some((p.p@, crate::names::text_views(p.names@))),
        None => None,
    }
}

/// Every Elmore delay is of a named node.
spec fn pi_named(p: Option<Pi>) -> bool {
    p matches Some(p) ==> forall|i: int|
        0 <= i < p.p.elmore@.len() ==> (#[trigger] p.p.elmore@[i]).0 < p.names@.len()
}

impl<'g, 'a> Calc<'g, 'a> {
    spec fn seen(self) -> CalcView {
        CalcView { g: self.g@, logs: self.logs@, parasitics: parasitic_views(self.parasitics@) }
    }

    spec fn valid(self) -> bool {
        &&& self.seen().valid()
        &&& self.index@ == self.seen().index()
    }

    fn pin_cap(&self, v: usize, rf: usize, mm: usize) -> (r: F32)
        requires
            self.valid(),
            v < self.g.vertices@.len(),
            rf < 2,
            mm < 2,
        ensures
            r == self.seen().pin_cap(v as int, rf as int, mm as int),
    {
        let x: &Vertex = &self.g.vertices[v];
        assert(self.g@.vertices[v as int] == x@);
        assert(self.g@.vertex_valid(v as int));
        match (&x.lib, &x.cell, &x.port) {
            (Some(l), Some(c), Some(p)) => {
                let found = graph::cell(self.g.libs, *l, c.as_str());
                assert(found@ == self.g@.cell_of(v as int));
                match found.port(p.as_str()) {
                    Some(port) => port.capacitance(rf, mm),
                    None => F32(0),
                }
            },
            _ => F32(0),
        }
    }

    /// The vertex of a name.
    fn find(&self, name: &str) -> (r: Option<usize>)
        requires
            self.valid(),
        ensures
            match r {
                Some(v) => self.seen().index().contains_key(name@) && v == self.seen().index()[name@] && v
                    < self.g.vertices@.len(),
                None => !self.seen().index().contains_key(name@),
            },
    {
        proof {
            graph::lemma_name_index(self.g@.vertices, name@);
        }
        match self.index.get(name) {
            Some(v) => Some(*v),
            None => None,
        }
    }

    fn net_pin_cap(&self, drvr: usize, rf: usize, mm: usize) -> (r: F32)
        requires
            self.valid(),
            drvr < self.g.vertices@.len(),
            rf < 2,
            mm < 2,
        ensures
            r == self.seen().net_pin_cap(drvr as int, rf as int, mm as int),
    {
        let n: usize = match self.g.vertex_net[drvr] {
            Some(n) => n,
            None => {
                return self.pin_cap(drvr, rf, mm);
            },
        };
        assert(self.g@.vertex_net[drvr as int] == Some(n));
        let mut sum: F32 = F32(0);
        let mut i: usize = 0;
        let ghost pins = self.g@.netlist.nets[n as int].pins;
        assert(pins.take(0) =~= Seq::<ConnView>::empty());
        while i < self.g.netlist.nets[n].pins.len()
            invariant
                self.valid(),
                n < self.g.netlist.nets@.len(),
                rf < 2,
                mm < 2,
                pins == self.g@.netlist.nets[n as int].pins,
                i <= pins.len(),
                sum == self.seen().cap_sum(pins.take(i as int), rf as int, mm as int),
            decreases pins.len() - i,
        {
            assert(pins.take(i + 1).drop_last() =~= pins.take(i as int));
            assert(self.g@.netlist.has(self.g@.netlist.nets[n as int].pins[i as int]));
            let name: String = self.g.netlist.pin_name(&self.g.netlist.nets[n].pins[i]);
            match self.find(name.as_str()) {
                Some(v) => {
                    sum = sum + self.pin_cap(v, rf, mm);
                },
                None => {},
            }
            i = i + 1;
        }
        assert(pins.take(i as int) =~= pins);
        sum
    }

    fn node_pins(&self, names: &Vec<String>, n: usize, rf: usize, mm: usize) -> (r: NodePins)
        requires
            self.valid(),
            rf < 2,
            mm < 2,
        ensures
            r@ == self.seen().node_pins(crate::names::text_views(names@), n as nat, rf as int, mm as int),
    {
        let ghost want = self.seen().node_pins(crate::names::text_views(names@), n as nat, rf as int, mm as int);
        let mut pin_cap: Vec<F32> = Vec::new();
        let mut is_load: Vec<bool> = Vec::new();
        let mut i: usize = 0;
        while i < n
            invariant
                self.valid(),
                rf < 2,
                mm < 2,
                want == self.seen().node_pins(crate::names::text_views(names@), n as nat, rf as int, mm as int),
                i <= n,
                pin_cap@ == want.pin_cap.take(i as int),
                is_load@ == want.is_load.take(i as int),
            decreases n - i,
        {
            let found: Option<usize> = if i < names.len() {
                self.find(names[i].as_str())
            } else {
                None
            };
            match found {
                Some(v) => {
                    pin_cap.push(self.pin_cap(v, rf, mm));
                    is_load.push(!self.g.vertices[v].is_driver);
                    assert(self.g@.vertices[v as int] == self.g.vertices@[v as int]@);
                },
                None => {
                    pin_cap.push(F32(0));
                    is_load.push(false);
                },
            }
            i = i + 1;
            assert(pin_cap@ =~= want.pin_cap.take(i as int));
            assert(is_load@ =~= want.is_load.take(i as int));
        }
        assert(pin_cap@ =~= want.pin_cap);
        assert(is_load@ =~= want.is_load);
        NodePins { pin_cap, is_load }
    }

    /// The pi-Elmore model of a driver's net, for a transition and min/max.
    fn reduce(&self, drvr: usize, rf: usize, mm: usize) -> (r: Option<Pi<'g>>)
        requires
            self.valid(),
            drvr < self.g.vertices@.len(),
            self.g@.vertices[drvr as int].is_driver,
            rf < 2,
            mm < 2,
        ensures
            pi_view(r) == self.seen().reduce(drvr as int, rf as int, mm as int),
            pi_named(r),
    {
        let n: usize = match self.g.vertex_net[drvr] {
            Some(n) => n,
            None => {
                return None;
            },
        };
        assert(self.g@.vertex_net[drvr as int] == Some(n));
        let np: &'g NetParasitics = match self.parasitics.get(self.g.netlist.nets[n].name.as_str()) {
            Some(np) => np,
            None => {
                return None;
            },
        };
        assert(self.g@.netlist.nets[n as int].name == self.g.netlist.nets@[n as int].name@);
        assert(self.seen().parasitics[self.g@.netlist.nets[n as int].name] == np@);
        let d: usize = place(&np.node_names, self.g.vertices[drvr].name.as_str())?;
        assert(self.seen().placed(drvr as int));
        let pins: NodePins = self.node_pins(&np.node_names, np.network.node_caps.len(), rf, mm);
        let p: PiElmore = parasitics::reduce_to_pi_elmore(&np.network, d, &pins);
        proof {
            parasitics::lemma_elmore_at_loads(np.network@, d as int, pins@);
            assert forall|i: int| 0 <= i < p.elmore@.len() implies (#[trigger] p.elmore@[i]).0
                < np.node_names@.len() by {
                assert(p@.elmore[i].0 == p.elmore@[i].0);
                assert(pins@.is_load[p@.elmore[i].0]);
            }
        }
        Some(Pi { p, names: &np.node_names })
    }

    /// The Elmore delay of a load.
    fn elmore(&self, pe: &Option<Pi<'g>>, load: usize) -> (r: Option<F32>)
        requires
            pi_named(*pe),
            load < self.g.vertices@.len(),
        ensures
            r == load_elmore(pi_view(*pe), self.g@.vertices[load as int].name),
    {
        let pi: &Pi<'g> = match pe {
            Some(pi) => pi,
            None => {
                return None;
            },
        };
        let name: &str = self.g.vertices[load].name.as_str();
        assert(self.g@.vertices[load as int] == self.g.vertices@[load as int]@);
        let ghost delays = pi.p@.elmore;
        let ghost names = crate::names::text_views(pi.names@);
        let mut i: usize = 0;
        while i < pi.p.elmore.len()
            invariant
                pe matches Some(x) && x == *pi,
                pi_named(*pe),
                name@ == self.g@.vertices[load as int].name,
                i <= pi.p.elmore@.len(),
                delays == pi.p@.elmore,
                names == crate::names::text_views(pi.names@),
                elmore_named(delays, names, name@, i as int) == elmore_named(delays, names, name@, 0),
            decreases pi.p.elmore@.len() - i,
        {
            let (n, delay): (usize, F32) = pi.p.elmore[i];
            assert(pi.p.elmore@[i as int].0 < pi.names@.len());
            assert(delays[i as int] == (n as int, delay));
            if *pi.names[n].as_str() == *name {
                return Some(delay);
            }
            i = i + 1;
        }
        None
    }

    fn threshold_library(&self, v: usize) -> (r: usize)
        requires
            self.valid(),
            v < self.g.vertices@.len(),
            self.g.libs@.len() > 0,
        ensures
            r == self.seen().threshold_library(v as int),
            r < self.g.libs@.len(),
    {
        assert(self.g@.vertex_valid(v as int));
        assert(self.g@.vertices[v as int] == self.g.vertices@[v as int]@);
        match self.g.vertices[v].lib {
            Some(l) => l,
            None => 0,
        }
    }

    fn adjust(&self, lib: usize, load: usize, rf: usize, wire: (F64, F64)) -> (r: (F64, F64))
        requires
            self.valid(),
            lib < self.g.libs@.len(),
            load < self.g.vertices@.len(),
            rf < 2,
        ensures
            r == self.seen().adjust(lib, load as int, rf as int, wire),
    {
        let ll: usize = self.threshold_library(load);
        let mut delay: F64 = wire.0;
        let mut slew: F64 = wire.1;
        assert(self.g@.libs[lib as int] == self.g.libs@[lib as int]@);
        assert(self.g@.libs[ll as int] == self.g.libs@[ll as int]@);
        dcalc::threshold_adjust(
            ll == lib,
            &self.g.libs[lib].lib_thresholds(rf),
            &self.g.libs[ll].lib_thresholds(rf),
            rf == RISE,
            &mut delay,
            &mut slew,
        );
        (delay, slew)
    }

    fn root_wire(&self, pe: &Option<Pi<'g>>, e: usize, rf: usize, mm: usize, t: &mut Tables)
        requires
            self.valid(),
            pi_named(*pe),
            e < self.g.edges@.len(),
            self.g.edges@[e as int].kind is Wire,
            rf < 2,
            mm < 2,
            old(t).seen().fits(self.g@),
        ensures
            final(t).seen() == self.seen().root_wire(pi_view(*pe), e as int, rf as int, mm as int, old(t).seen()),
            final(t).seen().fits(self.g@),
    {
        let ghost g = self.g@;
        assert(g.edge_valid(g.edges[e as int]));
        let load: usize = self.g.edges[e].to;
        let ll: usize = self.threshold_library(load);
        assert(g.libs[ll as int] == self.g.libs@[ll as int]@);
        let wire: (F64, F64) = match self.elmore(pe, load) {
            Some(el) => dcalc::dspf_wire_delay_slew(
                F64(0),
                el,
                &self.g.libs[ll].input_thresholds(rf),
                &self.logs[ll].input[rf],
            ),
            None => (F64(0), F64(0)),
        };
        let (delay, slew): (F64, F64) = self.adjust(0, load, rf, wire);
        t.set_slew(load, rf, mm, slew.to_f32(), Ghost(g));
        t.set_delay(e, rf, mm, delay.to_f32(), Ghost(g));
    }

    fn root_wires(&self, pe: &Option<Pi<'g>>, wires: &Vec<usize>, rf: usize, mm: usize, t: &mut Tables)
        requires
            self.valid(),
            pi_named(*pe),
            all_wires(self.g@, wires@),
            rf < 2,
            mm < 2,
            old(t).seen().fits(self.g@),
        ensures
            final(t).seen() == self.seen().root_wires(
                pi_view(*pe),
                wires@,
                0,
                rf as int,
                mm as int,
                old(t).seen(),
            ),
            final(t).seen().fits(self.g@),
    {
        let ghost all = self.seen().root_wires(pi_view(*pe), wires@, 0, rf as int, mm as int, t.seen());
        let mut k: usize = 0;
        while k < wires.len()
            invariant
                self.valid(),
                pi_named(*pe),
                all_wires(self.g@, wires@),
                rf < 2,
                mm < 2,
                k <= wires@.len(),
                t.seen().fits(self.g@),
                self.seen().root_wires(pi_view(*pe), wires@, k as int, rf as int, mm as int, t.seen()) == all,
            decreases wires@.len() - k,
        {
            self.root_wire(pe, wires[k], rf, mm, t);
            k = k + 1;
        }
    }

    /// The wires of a driver with no drive: slews and delays by the input-port delay.
    fn root_corners(&self, v: usize, wires: &Vec<usize>, t: &mut Tables)
        requires
            self.valid(),
            v < self.g.vertices@.len() && self.g@.vertices[v as int].is_driver,
            all_wires(self.g@, wires@),
            old(t).seen().fits(self.g@),
        ensures
            final(t).seen() == self.seen().root_corners(v as int, wires@, 0, old(t).seen()),
            final(t).seen().fits(self.g@),
    {
        let ghost all = self.seen().root_corners(v as int, wires@, 0, t.seen());
        let mut c: usize = 0;
        while c < 4
            invariant
                self.valid(),
                v < self.g.vertices@.len() && self.g@.vertices[v as int].is_driver,
                all_wires(self.g@, wires@),
                c <= 4,
                t.seen().fits(self.g@),
                self.seen().root_corners(v as int, wires@, c as int, t.seen()) == all,
            decreases 4 - c,
        {
            let (rf, mm): (usize, usize) = (c / 2, c % 2);
            let pe: Option<Pi<'g>> = self.reduce(v, rf, mm);
            self.root_wires(&pe, wires, rf, mm, t);
            c = c + 1;
        }
    }

    fn init_wires(&self, wires: &Vec<usize>, t: &mut Tables)
        requires
            self.valid(),
            all_wires(self.g@, wires@),
            old(t).seen().fits(self.g@),
        ensures
            final(t).seen() == self.seen().init_wires(wires@, 0, old(t).seen()),
            final(t).seen().fits(self.g@),
    {
        let ghost g = self.g@;
        let ghost all = self.seen().init_wires(wires@, 0, t.seen());
        let (low, high): (F32, F32) = (F32(MIN_INITIAL), F32(MAX_INITIAL));
        let mut k: usize = 0;
        while k < wires.len()
            invariant
                self.valid(),
                g == self.g@,
                low == F32(MIN_INITIAL),
                high == F32(MAX_INITIAL),
                all_wires(self.g@, wires@),
                k <= wires@.len(),
                t.seen().fits(self.g@),
                self.seen().init_wires(wires@, k as int, t.seen()) == all,
            decreases wires@.len() - k,
        {
            let e: usize = wires[k];
            assert(g.edge_valid(g.edges[e as int]));
            t.fill_slew(self.g.edges[e].to, low, high, Ghost(g));
            t.fill_delay(e, low, high, Ghost(g));
            k = k + 1;
        }
    }

    fn clear_wires(&self, wires: &Vec<usize>, rf: usize, mm: usize, t: &mut Tables)
        requires
            self.valid(),
            all_wires(self.g@, wires@),
            rf < 2,
            mm < 2,
            old(t).seen().fits(self.g@),
        ensures
            final(t).seen() == self.seen().clear_wires(wires@, 0, rf as int, mm as int, old(t).seen()),
            final(t).seen().fits(self.g@),
    {
        let ghost g = self.g@;
        let ghost all = self.seen().clear_wires(wires@, 0, rf as int, mm as int, t.seen());
        let mut k: usize = 0;
        while k < wires.len()
            invariant
                self.valid(),
                g == self.g@,
                all_wires(self.g@, wires@),
                rf < 2,
                mm < 2,
                k <= wires@.len(),
                t.seen().fits(self.g@),
                self.seen().clear_wires(wires@, k as int, rf as int, mm as int, t.seen()) == all,
            decreases wires@.len() - k,
        {
            let w: usize = wires[k];
            assert(g.edge_valid(g.edges[w as int]));
            t.set_delay(w, rf, mm, F32(0), Ghost(g));
            t.set_slew(self.g.edges[w].to, rf, mm, F32(0), Ghost(g));
            k = k + 1;
        }
    }
}

spec fn dmp_view(d: Option<Dmp>) -> Option<DmpView> {
    match d {
        Some(d) => Some(d@),
        None => None,
    }
}

/// A step that went on, or ended for a reason, as it should.
spec fn took(step: Step, r: Result<(), String>, run: Run) -> bool {
    match r {
        Ok(_) => step == Ok::<Run, (Run, Seq<char>)>(run),
        Err(e) => step == Err::<Run, (Run, Seq<char>)>((run, e@)),
    }
}

impl<'g, 'a> Calc<'g, 'a> {
    fn arc_parasitic(&self, v: usize, rf: usize, mm: usize, pin_cap: F32) -> (r: Option<Pi<'g>>)
        requires
            self.valid(),
            v < self.g.vertices@.len() && self.g@.vertices[v as int].is_driver,
            rf < 2,
            mm < 2,
            pin_cap == self.seen().net_pin_cap(v as int, rf as int, mm as int),
        ensures
            pi_view(r) == self.seen().arc_parasitic(v as int, rf as int, mm as int),
            pi_named(r),
    {
        match self.reduce(v, rf, mm) {
            Some(pi) => if pin_cap.le(pi.p.c1 + pi.p.c2) {
                Some(pi)
            } else {
                None
            },
            None => None,
        }
    }

    fn gate_times<'m>(
        &self,
        v: usize,
        model: &'m GateModel,
        pe: &Option<Pi<'g>>,
        pin_cap: F32,
        in_slew: F32,
        rf: usize,
        mm: usize,
    ) -> (r: Option<(F64, F64, Option<Dmp<'m>>)>)
        requires
            self.valid(),
            v < self.g.vertices@.len(),
            self.g.vertices@[v as int].lib is Some,
            rf < 2,
            mm < 2,
            pin_cap == self.seen().net_pin_cap(v as int, rf as int, mm as int),
            pi_view(*pe) == self.seen().arc_parasitic(v as int, rf as int, mm as int),
        ensures
            match r {
                Some((delay, slew, d)) => self.seen().gate_times(v as int, model@, in_slew, rf as int, mm as int)
                    == Some((delay, slew, dmp_view(d))),
                None => self.seen().gate_times(v as int, model@, in_slew, rf as int, mm as int) is None,
            },
    {
        assert(self.g@.vertex_valid(v as int));
        assert(self.g@.vertices[v as int] == self.g.vertices@[v as int]@);
        match pe {
            Some(pi) => {
                let lib: usize = self.threshold_library(v);
                assert(self.g@.libs[lib as int] == self.g.libs@[lib as int]@);
                let mut d: Dmp<'m> = Dmp::new(
                    model,
                    &self.g.libs[lib].output_thresholds(rf),
                    &self.logs[lib].output[rf],
                    in_slew,
                    pi.p.c2,
                    pi.p.rpi,
                    pi.p.c1,
                )?;
                let (delay, slew): (F64, F64) = d.gate_delay_slew()?;
                Some((delay, slew, Some(d)))
            },
            None => {
                let (delay, slew): (F32, F32) = model.gate_delay(in_slew, pin_cap)?;
                Some((delay.to_f64(), slew.to_f64(), None))
            },
        }
    }

    fn arc_wires<'m>(
        &self,
        v: usize,
        wires: &Vec<usize>,
        rf: usize,
        mm: usize,
        slew: F64,
        driven: Option<Dmp<'m>>,
        pe: &Option<Pi<'g>>,
        t: &mut Tables,
        trace: &mut Option<Vec<String>>,
    )
        requires
            self.valid(),
            v < self.g.vertices@.len(),
            self.g.vertices@[v as int].lib is Some,
            all_wires(self.g@, wires@),
            rf < 2,
            mm < 2,
            pi_named(*pe),
            old(t).seen().fits(self.g@),
        ensures
            run_of(*final(t), *final(trace)) == self.seen().arc_wires(
                v as int,
                wires@,
                0,
                rf as int,
                mm as int,
                slew,
                dmp_view(driven),
                pi_view(*pe),
                run_of(*old(t), *old(trace)),
            ),
            final(t).seen().fits(self.g@),
    {
        let ghost g = self.g@;
        let ghost all = self.seen().arc_wires(
                v as int,
                wires@,
                0,
                rf as int,
                mm as int,
                slew,
                dmp_view(driven),
                pi_view(*pe),
                run_of(*t, *trace),
            );
        assert(g.vertex_valid(v as int));
        assert(g.vertices[v as int] == self.g.vertices@[v as int]@);
        let lib: usize = self.threshold_library(v);
        let mut d: Option<Dmp<'m>> = driven;
        let mut k: usize = 0;
        while k < wires.len()
            invariant
                self.valid(),
                g == self.g@,
                v < self.g.vertices@.len(),
                g.vertices[v as int] == self.g.vertices@[v as int]@,
                g.vertices[v as int].lib == Some(lib),
                lib < self.g.libs@.len(),
                all_wires(g, wires@),
                rf < 2,
                mm < 2,
                pi_named(*pe),
                k <= wires@.len(),
                t.seen().fits(g),
                self.seen().arc_wires(
                    v as int,
                    wires@,
                    k as int,
                    rf as int,
                    mm as int,
                    slew,
                    dmp_view(d),
                    pi_view(*pe),
                    run_of(*t, *trace),
                ) == all,
            decreases wires@.len() - k,
        {
            let w: usize = wires[k];
            assert(g.edge_valid(g.edges[w as int]));
            let load: usize = self.g.edges[w].to;
            assert(g.vertices[load as int] == self.g.vertices@[load as int]@);
            let elmore: Option<F32> = self.elmore(pe, load);
            let wire: (F64, F64) = match &mut d {
                Some(s) => match elmore {
                    Some(el) => s.load_delay_slew(el.to_f64()),
                    None => (F64(0), slew),
                },
                None => (F64(0), slew.to_f32().to_f64()),
            };
            if d.is_some() && trace.is_some() {
                note(
                    trace,
                    load_text(
                        self.g.vertices[v].name.as_str(),
                        self.g.vertices[load].name.as_str(),
                        wire.0,
                        wire.1,
                    ),
                );
            }
            let (delay, load_slew): (F64, F64) = self.adjust(lib, load, rf, wire);
            t.merge_slew(load, rf, mm, load_slew.to_f32(), Ghost(g));
            t.merge_delay(w, rf, mm, delay.to_f32(), Ghost(g));
            k = k + 1;
        }
    }
}

impl<'g, 'a> Calc<'g, 'a> {
    fn gate_arc(
        &self,
        v: usize,
        wires: &Vec<usize>,
        e: usize,
        set: &'a ArcSet,
        k: usize,
        mm: usize,
        t: &mut Tables,
        trace: &mut Option<Vec<String>>,
    ) -> (r: Result<(), String>)
        requires
            self.valid(),
            v < self.g.vertices@.len() && self.g@.vertices[v as int].is_driver,
            all_wires(self.g@, wires@),
            e < self.g.edges@.len(),
            self.g.edges@[e as int].kind is Gate,
            self.g.edges@[e as int].to == v,
            set@ == self.g@.arc_set(e as int),
            k < set.arcs@.len(),
            set.arcs@[k as int].model is Gate,
            mm < 2,
            old(t).seen().fits(self.g@),
        ensures
            took(
                self.seen().gate_arc(
                    v as int,
                    wires@,
                    e as int,
                    k as int,
                    mm as int,
                    run_of(*old(t), *old(trace)),
                ),
                r,
                run_of(*final(t), *final(trace)),
            ),
            final(t).seen().fits(self.g@),
    {
        let ghost g = self.g@;
        assert(g.edge_valid(g.edges[e as int]));
        assert(g.vertices[v as int] == self.g.vertices@[v as int]@);
        let arc: &Arc = &set.arcs[k];
        assert(g.arc_set(e as int).arcs[k as int] == arc@);
        proof {
            self.g@.lemma_arc_timed(e as int, k as int);
        }
        let model: &GateModel = match &arc.model {
            Model::Gate(m) => m,
            Model::Check(_) => {
                return Ok(());
            },
        };
        let rf: usize = arc.to_rf;
        let in_slew: F32 = t.slew(self.g.edges[e].from, arc.from_rf, mm);
        let pin_cap: F32 = self.net_pin_cap(v, rf, mm);
        let pe: Option<Pi<'g>> = self.arc_parasitic(v, rf, mm, pin_cap);
        let (delay, slew, d): (F64, F64, Option<Dmp>) = match self.gate_times(
            v,
            model,
            &pe,
            pin_cap,
            in_slew,
            rf,
            mm,
        ) {
            Some(x) => x,
            None => {
                return Err("a table lookup reads outside its table".to_owned());
            },
        };
        if trace.is_some() {
            match (&d, &pe) {
                (Some(s), Some(pi)) => {
                    note(
                        trace,
                        gate_text(self.g.vertices[v].name.as_str(), arc, in_slew, &pi.p, s, delay, slew),
                    );
                },
                _ => {},
            }
        }
        t.merge_slew(v, rf, mm, slew.to_f32(), Ghost(g));
        t.set_delay(e, k, mm, delay.to_f32(), Ghost(g));
        self.arc_wires(v, wires, rf, mm, slew, d, &pe, t, trace);
        Ok(())
    }

    fn edge_arcs(
        &self,
        v: usize,
        wires: &Vec<usize>,
        e: usize,
        set: &'a ArcSet,
        t: &mut Tables,
        trace: &mut Option<Vec<String>>,
    ) -> (r: Result<(), String>)
        requires
            self.valid(),
            v < self.g.vertices@.len() && self.g@.vertices[v as int].is_driver,
            all_wires(self.g@, wires@),
            e < self.g.edges@.len(),
            self.g.edges@[e as int].kind is Gate,
            self.g.edges@[e as int].to == v,
            set@ == self.g@.arc_set(e as int),
            old(t).seen().fits(self.g@),
        ensures
            took(
                self.seen().edge_arcs(v as int, wires@, e as int, 0, 0, run_of(*old(t), *old(trace))),
                r,
                run_of(*final(t), *final(trace)),
            ),
            final(t).seen().fits(self.g@),
    {
        let ghost all = self.seen().edge_arcs(v as int, wires@, e as int, 0, 0, run_of(*t, *trace));
        let mut mm: usize = 0;
        let mut k: usize = 0;
        while mm < 2
            invariant
                self.valid(),
                v < self.g.vertices@.len() && self.g@.vertices[v as int].is_driver,
                all_wires(self.g@, wires@),
                e < self.g.edges@.len(),
                self.g.edges@[e as int].kind is Gate,
                self.g.edges@[e as int].to == v,
                set@ == self.g@.arc_set(e as int),
                mm <= 2,
                k <= set.arcs@.len(),
                t.seen().fits(self.g@),
                self.seen().edge_arcs(
                    v as int,
                    wires@,
                    e as int,
                    mm as int,
                    k as int,
                    run_of(*t, *trace),
                ) == all,
                all == self.seen().edge_arcs(v as int, wires@, e as int, 0, 0, run_of(*old(t), *old(trace))),
            decreases 2 - mm, set.arcs@.len() - k,
        {
            if k >= set.arcs.len() {
                mm = mm + 1;
                k = 0;
            } else {
                assert(self.g@.arc_set(e as int).arcs[k as int] == set.arcs@[k as int]@);
                if matches!(set.arcs[k].model, Model::Gate(_)) {
                    self.gate_arc(v, wires, e, set, k, mm, t, trace)?;
                }
                k = k + 1;
            }
        }
        Ok(())
    }

    fn fanin_edges(
        &self,
        v: usize,
        wires: &Vec<usize>,
        fanin: &Vec<usize>,
        t: &mut Tables,
        trace: &mut Option<Vec<String>>,
    ) -> (r: Result<(), String>)
        requires
            self.valid(),
            v < self.g.vertices@.len() && self.g@.vertices[v as int].is_driver,
            all_wires(self.g@, wires@),
            all_into(self.g@, fanin@, v as int),
            old(t).seen().fits(self.g@),
        ensures
            took(
                self.seen().fanin_edges(
                    v as int,
                    wires@,
                    fanin@,
                    fanin@.len() as int,
                    run_of(*old(t), *old(trace)),
                ),
                r,
                run_of(*final(t), *final(trace)),
            ),
            final(t).seen().fits(self.g@),
    {
        let ghost all = self.seen().fanin_edges(
            v as int,
            wires@,
            fanin@,
            fanin@.len() as int,
            run_of(*t, *trace),
        );
        let mut i: usize = fanin.len();
        while i > 0
            invariant
                self.valid(),
                v < self.g.vertices@.len() && self.g@.vertices[v as int].is_driver,
                all_wires(self.g@, wires@),
                all_into(self.g@, fanin@, v as int),
                i <= fanin@.len(),
                t.seen().fits(self.g@),
                self.seen().fanin_edges(v as int, wires@, fanin@, i as int, run_of(*t, *trace)) == all,
                all == self.seen().fanin_edges(
                    v as int,
                    wires@,
                    fanin@,
                    fanin@.len() as int,
                    run_of(*old(t), *old(trace)),
                ),
            decreases i,
        {
            i = i - 1;
            let e: usize = fanin[i];
            match self.g.edges[e].kind {
                EdgeKind::Wire => {},
                EdgeKind::Gate { set } => {
                    let arcs: &'a ArcSet = self.g.arc_set(e, set);
                    if matches!(arcs.role, Role::LatchDtoQ) {
                        return Err("latch D->Q arcs are not modelled".to_owned());
                    }
                    self.edge_arcs(v, wires, e, arcs, t, trace)?;
                },
            }
        }
        Ok(())
    }

    fn drives(&self, fanin: &Vec<usize>, rf: usize) -> (r: bool)
        requires
            self.valid(),
            graph::all_below(fanin@, self.g.edges@.len()),
        ensures
            r == self.seen().drives(fanin@, rf as int),
    {
        let ghost g = self.g@;
        let mut i: usize = 0;
        while i < fanin.len()
            invariant
                self.valid(),
                g == self.g@,
                graph::all_below(fanin@, self.g.edges@.len()),
                i <= fanin@.len(),
                forall|j: int| 0 <= j < i ==> !#[trigger] edge_drives(g, fanin@[j] as int, rf as int),
            decreases fanin@.len() - i,
        {
            let e: usize = fanin[i];
            if self.edge_drives(e, rf) {
                return true;
            }
            i = i + 1;
        }
        false
    }

    fn edge_drives(&self, e: usize, rf: usize) -> (r: bool)
        requires
            self.valid(),
            e < self.g.edges@.len(),
        ensures
            r == edge_drives(self.g@, e as int, rf as int),
    {
        let set: &'a ArcSet = match self.g.edges[e].kind {
            EdgeKind::Wire => {
                return false;
            },
            EdgeKind::Gate { set } => self.g.arc_set(e, set),
        };
        let ghost arcs = self.g@.arc_set(e as int).arcs;
        let mut k: usize = 0;
        while k < set.arcs.len()
            invariant
                set@.arcs == arcs,
                arcs == self.g@.arc_set(e as int).arcs,
                self.g@.edges[e as int].kind is Gate,
                k <= arcs.len(),
                forall|j: int| 0 <= j < k ==> !((#[trigger] arcs[j]).model is Gate && arcs[j].to_rf == rf),
            decreases arcs.len() - k,
        {
            assert(arcs[k as int] == set.arcs@[k as int]@);
            if matches!(set.arcs[k].model, Model::Gate(_)) && set.arcs[k].to_rf == rf {
                return true;
            }
            k = k + 1;
        }
        false
    }

    fn clear_undriven(&self, v: usize, wires: &Vec<usize>, fanin: &Vec<usize>, t: &mut Tables)
        requires
            self.valid(),
            v < self.g.vertices@.len(),
            all_wires(self.g@, wires@),
            graph::all_below(fanin@, self.g.edges@.len()),
            old(t).seen().fits(self.g@),
        ensures
            final(t).seen() == self.seen().clear_undriven(v as int, wires@, fanin@, 0, old(t).seen()),
            final(t).seen().fits(self.g@),
    {
        let ghost g = self.g@;
        let ghost all = self.seen().clear_undriven(v as int, wires@, fanin@, 0, t.seen());
        let mut c: usize = 0;
        while c < 4
            invariant
                self.valid(),
                g == self.g@,
                v < self.g.vertices@.len(),
                all_wires(self.g@, wires@),
                graph::all_below(fanin@, self.g.edges@.len()),
                c <= 4,
                t.seen().fits(self.g@),
                self.seen().clear_undriven(v as int, wires@, fanin@, c as int, t.seen()) == all,
            decreases 4 - c,
        {
            let (rf, mm): (usize, usize) = (c / 2, c % 2);
            if !self.drives(fanin, rf) {
                t.set_slew(v, rf, mm, F32(0), Ghost(g));
                self.clear_wires(wires, rf, mm, t);
            }
            c = c + 1;
        }
    }
}

/// The propagating edges among those into a vertex end there too.
pub proof fn lemma_propagating(g: GraphView, edges: Seq<usize>, v: int)
    requires
        all_into(g, edges, v),
    ensures
        all_into(g, propagating(g, edges), v),
    decreases edges.len(),
{
    if edges.len() > 0 {
        assert(all_into(g, edges.drop_last(), v)) by {
            assert forall|i: int| 0 <= i < edges.drop_last().len() implies (#[trigger] edges.drop_last()[i])
                < g.edges.len() && g.edges[edges.drop_last()[i] as int].to == v by {
                assert(edges.drop_last()[i] == edges[i]);
            }
        }
        lemma_propagating(g, edges.drop_last(), v);
        assert(edges[edges.len() - 1] < g.edges.len());
    }
}

proof fn lemma_wires_among(g: GraphView, edges: Seq<usize>)
    requires
        graph::all_below(edges, g.edges.len()),
    ensures
        all_wires(g, wires_among(g, edges)),
    decreases edges.len(),
{
    if edges.len() > 0 {
        assert(graph::all_below(edges.drop_last(), g.edges.len())) by {
            assert forall|i: int| 0 <= i < edges.drop_last().len() implies (#[trigger] edges.drop_last()[i])
                < g.edges.len() by {
                assert(edges.drop_last()[i] == edges[i]);
            }
        }
        lemma_wires_among(g, edges.drop_last());
        assert(edges[edges.len() - 1] < g.edges.len());
    }
}

impl<'g, 'a> Calc<'g, 'a> {
    /// The edges into a vertex along which times propagate.
    fn fanin(&self, v: usize) -> (r: Vec<usize>)
        requires
            self.valid(),
            v < self.g.vertices@.len(),
        ensures
            r@ == propagating(self.g@, self.g@.in_edges[v as int]),
            all_into(self.g@, r@, v as int),
    {
        let ghost g = self.g@;
        let ghost list = g.in_edges[v as int];
        proof {
            graph::lemma_edges_at(g.edges, v as int, true);
            assert(list == graph::edges_at(g.edges, v as int, true));
            assert forall|i: int| 0 <= i < list.len() implies (#[trigger] list[i]) < g.edges.len()
                && g.edges[list[i] as int].to == v by {}
            lemma_propagating(g, list, v as int);
        }
        assert(g.in_edges.len() == self.g.in_edges@.len());
        let edges: &Vec<usize> = &self.g.in_edges[v];
        assert(edges@ == list);
        assert(list.take(0) =~= Seq::<usize>::empty());
        let mut out: Vec<usize> = Vec::new();
        let mut i: usize = 0;
        while i < edges.len()
            invariant
                self.valid(),
                g == self.g@,
                edges@ == list,
                all_into(g, list, v as int),
                i <= list.len(),
                out@ == propagating(g, list.take(i as int)),
            decreases list.len() - i,
        {
            assert(list.take(i + 1).drop_last() =~= list.take(i as int));
            assert(list[i as int] < g.edges.len());
            if !self.g.is_check(edges[i]) {
                out.push(edges[i]);
            }
            i = i + 1;
        }
        assert(list.take(i as int) =~= list);
        out
    }

    /// The wires out of a vertex.
    fn wires(&self, v: usize) -> (r: Vec<usize>)
        requires
            self.valid(),
            v < self.g.vertices@.len(),
        ensures
            r@ == wires_among(self.g@, self.g@.out_edges[v as int]),
            all_wires(self.g@, r@),
    {
        let ghost g = self.g@;
        let ghost list = g.out_edges[v as int];
        proof {
            graph::lemma_edges_at(g.edges, v as int, false);
            assert(list == graph::edges_at(g.edges, v as int, false));
            lemma_wires_among(g, list);
        }
        assert(g.out_edges.len() == self.g.out_edges@.len());
        let edges: &Vec<usize> = &self.g.out_edges[v];
        assert(edges@ == list);
        assert(list.take(0) =~= Seq::<usize>::empty());
        let mut out: Vec<usize> = Vec::new();
        let mut i: usize = 0;
        while i < edges.len()
            invariant
                g == self.g@,
                edges@ == list,
                graph::all_below(list, g.edges.len()),
                i <= list.len(),
                out@ == wires_among(g, list.take(i as int)),
            decreases list.len() - i,
        {
            assert(list.take(i + 1).drop_last() =~= list.take(i as int));
            assert(list[i as int] < g.edges.len());
            if matches!(self.g.edges[edges[i]].kind, EdgeKind::Wire) {
                out.push(edges[i]);
            }
            i = i + 1;
        }
        assert(list.take(i as int) =~= list);
        out
    }

    fn visit(&self, v: usize, t: &mut Tables, trace: &mut Option<Vec<String>>) -> (r: Result<(), String>)
        requires
            self.valid(),
            v < self.g.vertices@.len(),
            old(t).seen().fits(self.g@),
        ensures
            took(
                self.seen().visit(v as int, run_of(*old(t), *old(trace))),
                r,
                run_of(*final(t), *final(trace)),
            ),
            final(t).seen().fits(self.g@),
    {
        let ghost g = self.g@;
        let fanin: Vec<usize> = self.fanin(v);
        let wires: Vec<usize> = self.wires(v);
        assert(g.vertices[v as int] == self.g.vertices@[v as int]@);
        if !self.g.vertices[v].is_driver {
            if fanin.len() == 0 {
                t.fill_slew(v, F32(0), F32(0), Ghost(g));
            }
            return Ok(());
        }
        if fanin.len() == 0 {
            t.fill_slew(v, F32(0), F32(0), Ghost(g));
            self.root_corners(v, &wires, t);
            return Ok(());
        }
        self.drive(v, &wires, &fanin, t, trace)
    }

    fn drive(
        &self,
        v: usize,
        wires: &Vec<usize>,
        fanin: &Vec<usize>,
        t: &mut Tables,
        trace: &mut Option<Vec<String>>,
    ) -> (r: Result<(), String>)
        requires
            self.valid(),
            v < self.g.vertices@.len() && self.g@.vertices[v as int].is_driver,
            all_wires(self.g@, wires@),
            all_into(self.g@, fanin@, v as int),
            old(t).seen().fits(self.g@),
        ensures
            took(
                self.seen().driven(v as int, wires@, fanin@, run_of(*old(t), *old(trace))),
                r,
                run_of(*final(t), *final(trace)),
            ),
            final(t).seen().fits(self.g@),
    {
        let ghost g = self.g@;
        let ghost before = run_of(*t, *trace);
        self.init_wires(wires, t);
        t.fill_slew(v, F32(MIN_INITIAL), F32(MAX_INITIAL), Ghost(g));
        assert(run_of(*t, *trace) == before.at(
            self.seen().init_wires(wires@, 0, before.times).with_slews(v as int, initial_pair()),
        ));
        self.fanin_edges(v, wires, fanin, t, trace)?;
        self.clear_undriven(v, wires, fanin, t);
        Ok(())
    }

    fn visit_all(&self, order: &Vec<usize>, t: &mut Tables, trace: &mut Option<Vec<String>>) -> (r: Result<
        (),
        String,
    >)
        requires
            self.valid(),
            graph::all_below(order@, self.g.vertices@.len()),
            old(t).seen().fits(self.g@),
        ensures
            took(
                self.seen().visit_all(order@, 0, run_of(*old(t), *old(trace))),
                r,
                run_of(*final(t), *final(trace)),
            ),
            final(t).seen().fits(self.g@),
    {
        let ghost all = self.seen().visit_all(order@, 0, run_of(*t, *trace));
        let mut i: usize = 0;
        while i < order.len()
            invariant
                self.valid(),
                graph::all_below(order@, self.g.vertices@.len()),
                i <= order@.len(),
                t.seen().fits(self.g@),
                self.seen().visit_all(order@, i as int, run_of(*t, *trace)) == all,
                all == self.seen().visit_all(order@, 0, run_of(*old(t), *old(trace))),
            decreases order@.len() - i,
        {
            self.visit(order[i], t, trace)?;
            i = i + 1;
        }
        Ok(())
    }

    fn check_delay(&self, e: usize, arc: &Arc, table: &Table, mm: usize, t: &Tables) -> (r: Option<F32>)
        requires
            self.valid(),
            e < self.g.edges@.len(),
            arc.from_rf < 2,
            arc.to_rf < 2,
            mm < 2,
            t.seen().fits(self.g@),
        ensures
            r == self.seen().check_delay(e as int, arc@, table@, mm as int, t.seen()),
    {
        assert(self.g@.edge_valid(self.g@.edges[e as int]));
        let clk: F32 = t.slew(self.g.edges[e].from, arc.from_rf, 1 - mm);
        let data: F32 = t.slew(self.g.edges[e].to, arc.to_rf, mm);
        table.find_value(pick(table, 0, clk, data), pick(table, 1, clk, data), pick(table, 2, clk, data))
    }

    fn check_arcs(&self, e: usize, set: &'a ArcSet, t: &mut Tables, trace: &Option<Vec<String>>) -> (r: Result<
        (),
        String,
    >)
        requires
            self.valid(),
            e < self.g.edges@.len(),
            self.g.edges@[e as int].kind is Gate,
            set@ == self.g@.arc_set(e as int),
            old(t).seen().fits(self.g@),
        ensures
            took(
                self.seen().check_arcs(e as int, 0, 0, run_of(*old(t), *trace)),
                r,
                run_of(*final(t), *trace),
            ),
            final(t).seen().fits(self.g@),
    {
        let ghost g = self.g@;
        let ghost all = self.seen().check_arcs(e as int, 0, 0, run_of(*t, *trace));
        let mut k: usize = 0;
        let mut mm: usize = 0;
        while k < set.arcs.len()
            invariant
                self.valid(),
                g == self.g@,
                e < self.g.edges@.len(),
                self.g.edges@[e as int].kind is Gate,
                set@ == self.g@.arc_set(e as int),
                k <= set.arcs@.len(),
                mm <= 2,
                t.seen().fits(self.g@),
                self.seen().check_arcs(e as int, k as int, mm as int, run_of(*t, *trace)) == all,
                all == self.seen().check_arcs(e as int, 0, 0, run_of(*old(t), *trace)),
            decreases set.arcs@.len() - k, 2 - mm,
        {
            let arc: &Arc = &set.arcs[k];
            assert(g.arc_set(e as int).arcs[k as int] == arc@);
            proof {
                self.g@.lemma_arc_timed(e as int, k as int);
            }
            match &arc.model {
                Model::Check(table) => {
                    if mm >= 2 {
                        k = k + 1;
                        mm = 0;
                    } else {
                        match self.check_delay(e, arc, table, mm, t) {
                            Some(x) => {
                                t.set_delay(e, k, mm, x, Ghost(g));
                            },
                            None => {
                                return Err("a table lookup reads outside its table".to_owned());
                            },
                        }
                        mm = mm + 1;
                    }
                },
                Model::Gate(_) => {
                    k = k + 1;
                    mm = 0;
                },
            }
        }
        Ok(())
    }

    fn check_edges(&self, t: &mut Tables, trace: &Option<Vec<String>>) -> (r: Result<(), String>)
        requires
            self.valid(),
            old(t).seen().fits(self.g@),
        ensures
            took(
                self.seen().check_edges(0, run_of(*old(t), *trace)),
                r,
                run_of(*final(t), *trace),
            ),
            final(t).seen().fits(self.g@),
    {
        let ghost all = self.seen().check_edges(0, run_of(*t, *trace));
        let mut e: usize = 0;
        while e < self.g.edges.len()
            invariant
                self.valid(),
                e <= self.g.edges@.len(),
                t.seen().fits(self.g@),
                self.seen().check_edges(e as int, run_of(*t, *trace)) == all,
                all == self.seen().check_edges(0, run_of(*old(t), *trace)),
            decreases self.g.edges@.len() - e,
        {
            if self.g.is_check(e) {
                match self.g.edges[e].kind {
                    EdgeKind::Gate { set } => {
                        self.check_arcs(e, self.g.arc_set(e, set), t, trace)?;
                    },
                    EdgeKind::Wire => {},
                }
            }
            e = e + 1;
        }
        Ok(())
    }

    fn run(&self, t: &mut Tables, trace: &mut Option<Vec<String>>) -> (r: Result<(), String>)
        requires
            self.valid(),
            old(t).seen().fits(self.g@),
        ensures
            took(
                self.seen().delays(run_of(*old(t), *old(trace))),
                r,
                run_of(*final(t), *final(trace)),
            ),
            final(t).seen().fits(self.g@),
    {
        let order: Vec<usize> = self.g.topo_order()?;
        self.visit_all(&order, t, trace)?;
        self.check_edges(t, trace)
    }
}

fn index(vertices: &Vec<Vertex>) -> (r: StringHashMap<usize>)
    ensures
        r@ == graph::name_index(graph::vertex_views(vertices@)),
{
    let ghost all = graph::vertex_views(vertices@);
    let mut r: StringHashMap<usize> = StringHashMap::new();
    assert(all.take(0) =~= Seq::<VertexView>::empty());
    let mut i: usize = 0;
    while i < vertices.len()
        invariant
            all == graph::vertex_views(vertices@),
            i <= vertices@.len(),
            r@ == graph::name_index(all.take(i as int)),
        decreases vertices@.len() - i,
    {
        assert(all.take(i + 1).drop_last() =~= all.take(i as int));
        r.insert(vertices[i].name.clone(), i);
        i = i + 1;
    }
    assert(all.take(i as int) =~= all);
    r
}

impl<'a> Graph<'a> {
    /// What delays are calculated from.
    pub open spec fn calc(self, parasitics: NameMap<NetParasitics>, logs: Vec<LibraryLogs>) -> CalcView {
        CalcView { g: self@, logs: logs@, parasitics: parasitic_views(parasitics@) }
    }

    /// Delay calculation over the whole graph. With a trace, one line per gate driving a parasitic
    /// (`dcalc|gate|drvr|rf pair|in_slew|c2|rpi|c1|alg|rd|t0|dt|ceff|valid|delay|slew`, bits in
    /// hex) and per load of it (`dcalc|load|drvr|load|wire delay|load slew`). Refused for a loop, a
    /// latch's data arc, and a table looked up outside its values; slews and delays are then as far
    /// as they were calculated.
    pub fn find_delays(
        &mut self,
        parasitics: &NameMap<NetParasitics>,
        logs: &Vec<LibraryLogs>,
        trace: &mut Option<Vec<String>>,
    ) -> (r: Result<(), String>)
        requires
            old(self).calc(*parasitics, *logs).valid(),
            old(self).times().fits(old(self)@),
        ensures
            final(self)@ == old(self)@,
            final(self).times().fits(old(self)@),
            match r {
                Ok(_) => old(self).calc(*parasitics, *logs).delays(
                    Run { times: old(self).times(), trace: trace_view(*old(trace)) },
                ) == Ok::<Run, (Run, Seq<char>)>(
                    Run { times: final(self).times(), trace: trace_view(*final(trace)) },
                ),
                Err(e) => old(self).calc(*parasitics, *logs).delays(
                    Run { times: old(self).times(), trace: trace_view(*old(trace)) },
                ) == Err::<Run, (Run, Seq<char>)>(
                    (Run { times: final(self).times(), trace: trace_view(*final(trace)) }, e@),
                ),
            },
    {
        let mut t: Tables = Tables { slew: Vec::new(), delay: Vec::new() };
        std::mem::swap(&mut t.slew, &mut self.slew);
        std::mem::swap(&mut t.delay, &mut self.delay);
        let r: Result<(), String> = {
            let c: Calc = Calc { g: &*self, logs, parasitics, index: index(&self.vertices) };
            c.run(&mut t, trace)
        };
        self.slew = t.slew;
        self.delay = t.delay;
        r
    }
}

fn pick(table: &Table, a: usize, clk: F32, data: F32) -> (r: F32)
    ensures
        r == check_pick(table@, a as int, clk, data),
{
    if a >= table.axes.len() {
        F32(0)
    } else {
        assert(table@.axes[a as int] == table.axes@[a as int]@);
        match table.axes[a].var {
            AxisVar::RelatedPinTransition => clk,
            AxisVar::ConstrainedPinTransition => data,
            _ => F32(0),
        }
    }
}

fn place(names: &Vec<String>, name: &str) -> (r: Option<usize>)
    ensures
        match r {
            Some(i) => i < names@.len() && first_place(crate::names::text_views(names@), name@, 0) == Some(
                i as int,
            ),
            None => first_place(crate::names::text_views(names@), name@, 0) is None,
        },
{
    let ghost all = crate::names::text_views(names@);
    let mut i: usize = 0;
    while i < names.len()
        invariant
            i <= names@.len(),
            all == crate::names::text_views(names@),
            first_place(all, name@, i as int) == first_place(all, name@, 0),
        decreases names@.len() - i,
    {
        if *names[i].as_str() == *name {
            return Some(i);
        }
        i = i + 1;
    }
    None
}

} // verus!
