use vyges_sta::dcalc::{ThresholdLogs, Thresholds};
use vyges_sta::delays::{LibraryLogs, NetParasitics};
use vyges_sta::float32::F32;
use vyges_sta::float64::F64;
use vyges_sta::graph::{EdgeKind, Graph};
use vyges_sta::liberty::{Library, FALL, MAX, MIN, RISE};
use vyges_sta::liberty_parse::parse;
use vyges_sta::names::NameMap;
use vyges_sta::netlist::{Conn, Net, Netlist, PortDir};
use vyges_sta::parasitics::Network;

fn f(x: f32) -> F32 {
    F32(x.to_bits())
}

fn hard(x: F32) -> f32 {
    f32::from_bits(x.to_bits())
}

fn log(x: F64) -> F64 {
    F64(f64::from_bits(x.to_bits()).ln().to_bits())
}

fn logs_of(t: Thresholds) -> ThresholdLogs {
    let (vth, rest, slew) = t.log_arguments();
    ThresholdLogs { vth: log(vth), rest: log(rest), slew: log(slew) }
}

fn logs(libs: &[Library]) -> Vec<LibraryLogs> {
    libs.iter()
        .map(|l| LibraryLogs {
            output: [logs_of(l.output_thresholds(RISE)), logs_of(l.output_thresholds(FALL))],
            input: [logs_of(l.input_thresholds(RISE)), logs_of(l.input_thresholds(FALL))],
        })
        .collect()
}

fn library(text: &str) -> Library {
    Library::read(&parse(text).unwrap()).unwrap()
}

fn inst(k: usize, p: &str) -> Conn {
    Conn::Inst(k, p.into())
}

fn net(name: &str, pins: Vec<Conn>) -> Net {
    Net { name: name.into(), pins }
}

fn place(g: &Graph, name: &str) -> usize {
    g.vertices.iter().position(|v| v.name == name).unwrap()
}

const LIB: &str = r#"library (t) {
  time_unit : "1ns"; capacitive_load_unit (1, pf);
  cell (and2) {
    pin (A) { direction : input; capacitance : 0.001; }
    pin (B) { direction : input; capacitance : 0.001; }
    pin (Y) { direction : output; function : "A&B";
      timing () { related_pin : "A"; timing_sense : positive_unate;
        cell_rise (scalar) { values ("0.1"); } rise_transition (scalar) { values ("1.0"); }
        cell_fall (scalar) { values ("0.1"); } fall_transition (scalar) { values ("1.0"); } }
      timing () { related_pin : "B"; timing_sense : positive_unate;
        cell_rise (scalar) { values ("0.1"); } rise_transition (scalar) { values ("1.0000005"); }
        cell_fall (scalar) { values ("0.1"); } fall_transition (scalar) { values ("1.0000005"); } }
    }
  }
}"#;

fn and2() -> Netlist {
    Netlist {
        insts: vec![("u1".into(), "and2".into())],
        ports: vec![
            ("a".into(), PortDir::Input),
            ("b".into(), PortDir::Input),
            ("y".into(), PortDir::Output),
        ],
        nets: vec![
            net("a", vec![inst(0, "A"), Conn::Port(0)]),
            net("b", vec![inst(0, "B"), Conn::Port(1)]),
            net("y", vec![inst(0, "Y"), Conn::Port(2)]),
        ],
    }
}

/// Edges prepend to a vertex's in-edge list and merges are fuzzy: the B arc set, created second, is
/// visited first, and A's slew, within 1 ppm, replaces it for neither min nor max. Visiting in
/// creation order would keep A's 1.0 ns instead.
#[test]
fn a_drivers_in_edges_merge_newest_first() {
    let libs = [library(LIB)];
    let netlist = and2();
    let mut g = Graph::build(&libs, &netlist).unwrap();
    g.find_delays(&NameMap::new(), &logs(&libs), &mut None).unwrap();
    let y = place(&g, "u1/Y");
    let b_slew = 1.000_000_5f32 * 1e-9;
    assert_ne!(b_slew, 1e-9);
    for rf in [RISE, FALL] {
        assert_eq!(g.slew[y][rf], [f(b_slew), f(b_slew)], "rf {rf}");
    }
}

#[test]
fn a_graph_has_a_vertex_per_pin_and_an_edge_per_arc_set_and_load() {
    let libs = [library(LIB)];
    let netlist = and2();
    let g = Graph::build(&libs, &netlist).unwrap();
    let names: Vec<&str> = g.vertices.iter().map(|v| v.name.as_str()).collect();
    assert_eq!(names, ["u1/A", "u1/B", "u1/Y", "a", "b", "y"]);
    assert_eq!(g.vertices.iter().map(|v| v.is_driver).collect::<Vec<_>>(), [
        false, false, true, true, true, false
    ]);
    let gates = g.edges.iter().filter(|e| matches!(e.kind, EdgeKind::Gate { .. })).count();
    assert_eq!((gates, g.edges.len()), (2, 5));
    assert_eq!(g.in_edges[2], [0, 1]);
    assert_eq!(g.out_edges[3].len(), 1);
    assert!((0..g.edges.len()).all(|e| !g.is_check(e)));
    assert!(g.slew.iter().flatten().flatten().all(|x| *x == f(0.0)));
}

/// An input port with no drive has slew 0; without parasitics a wire has delay 0 and a load the
/// slew of its driver; a gate's delay is its arc's.
#[test]
fn roots_and_lumped_loads() {
    let libs = [library(LIB)];
    let netlist = and2();
    let mut g = Graph::build(&libs, &netlist).unwrap();
    g.find_delays(&NameMap::new(), &logs(&libs), &mut None).unwrap();
    for name in ["a", "b", "u1/A", "u1/B"] {
        assert_eq!(g.slew[place(&g, name)], [[f(0.0); 2]; 2]);
    }
    assert_eq!(g.slew[place(&g, "y")], g.slew[place(&g, "u1/Y")]);
    for (e, d) in g.edges.iter().zip(&g.delay) {
        let want = if matches!(e.kind, EdgeKind::Gate { .. }) { 0.1 * 1e-9 } else { 0.0 };
        assert!(d.iter().flatten().all(|x| *x == f(want)));
    }
}

/// A transition that no arc drives is zeroed: slew, wire delays and load slews.
#[test]
fn an_undriven_transition_is_zero() {
    let libs = [library(
        r#"library (t) { cell (half) {
            pin (A) { direction : input; }
            pin (Y) { direction : output; function : "A";
              timing () { related_pin : "A"; timing_sense : positive_unate; timing_type : combinational_rise;
                cell_rise (scalar) { values ("0.1"); } rise_transition (scalar) { values ("1.0"); } } } } }"#,
    )];
    let netlist = Netlist {
        insts: vec![("u".into(), "half".into())],
        ports: vec![("a".into(), PortDir::Input), ("y".into(), PortDir::Output)],
        nets: vec![net("a", vec![inst(0, "A"), Conn::Port(0)]), net("y", vec![inst(0, "Y"), Conn::Port(1)])],
    };
    let mut g = Graph::build(&libs, &netlist).unwrap();
    g.find_delays(&NameMap::new(), &logs(&libs), &mut None).unwrap();
    let (d, y) = (place(&g, "u/Y"), place(&g, "y"));
    assert_eq!(g.slew[d], [[f(1e-9); 2], [f(0.0); 2]]);
    assert_eq!(g.slew[y], [[f(1e-9); 2], [f(0.0); 2]]);
    let wire = g.out_edges[d][0];
    assert_eq!(g.delay[wire], [[f(0.0); 2]; 2]);
}

fn wired(name: &str, from: &str, to: &str) -> NameMap<NetParasitics> {
    let mut m = NameMap::new();
    m.insert(name.into(), NetParasitics {
        node_names: vec![from.into(), "mid".into(), to.into()],
        network: Network {
            node_caps: vec![f(0.0), f(2e-14), f(1e-14)],
            resistors: vec![(0, 1, f(1000.0)), (1, 2, f(2000.0))],
        },
    });
    m
}

/// A root's wire takes the input-port delay of the load's Elmore delay.
#[test]
fn a_root_wire_is_its_elmore_delay() {
    let libs = [library(LIB)];
    let netlist = and2();
    let mut g = Graph::build(&libs, &netlist).unwrap();
    g.find_delays(&wired("a", "a", "u1/A"), &logs(&libs), &mut None).unwrap();
    let pin = f64::from(0.001f32 * 1e-12);
    let (c1, c2) = (f64::from(2e-14f32), f64::from(1e-14f32) + pin);
    let e = f64::from(1000.0f32 * (c1 + c2) as f32) + f64::from(2000.0f32 * c2 as f32);
    let el = f64::from(e as f32);
    let wire = g.out_edges[place(&g, "a")][0];
    let want = (-el * 0.5f64.ln()) as f32;
    assert!((hard(g.delay[wire][RISE][MAX]) / want - 1.0).abs() < 1e-6, "{}", want);
    let (vl, vh) = (f64::from(0.2f32), f64::from(0.8f32));
    let slew = (el * ((1.0 - vl) / (1.0 - vh)).ln()) as f32;
    assert!((hard(g.slew[place(&g, "u1/A")][FALL][MIN]) / slew - 1.0).abs() < 1e-6);
}

/// A gate that drives a parasitic is traced, one line per gate arc and min/max and one per load.
#[test]
fn a_driven_parasitic_is_traced() {
    let libs = [library(LIB)];
    let netlist = and2();
    let mut g = Graph::build(&libs, &netlist).unwrap();
    let mut trace = Some(Vec::new());
    g.find_delays(&wired("y", "u1/Y", "y"), &logs(&libs), &mut trace).unwrap();
    let lines = trace.unwrap();
    assert_eq!(lines.len(), 2 * 2 * 2 * 2);
    assert!(lines[0].starts_with("dcalc|gate|u1/Y|^^|00000000|"), "{}", lines[0]);
    assert_eq!(lines[0].split('|').count(), 16);
    assert!(lines[1].starts_with("dcalc|load|u1/Y|y|"), "{}", lines[1]);
    assert_eq!(lines[1].split('|').nth(4).unwrap().len(), 16);
    let wire = g.out_edges[place(&g, "u1/Y")][0];
    assert!(hard(g.delay[wire][RISE][MAX]) > 0.0);
}

/// A parasitic whose total is under the net's pin capacitance is dropped.
#[test]
fn a_parasitic_under_the_pin_capacitance_is_dropped() {
    let libs = [library(LIB)];
    let netlist = and2();
    let mut m = NameMap::new();
    m.insert("a".into(), NetParasitics {
        node_names: vec!["a".into(), "u1/A".into()],
        network: Network { node_caps: vec![f(0.0), f(0.0)], resistors: vec![] },
    });
    let mut g = Graph::build(&libs, &netlist).unwrap();
    let mut trace = Some(Vec::new());
    g.find_delays(&m, &logs(&libs), &mut trace).unwrap();
    assert_eq!(trace.unwrap().len(), 0);
}

fn refused(libs: &[Library], netlist: &Netlist) -> String {
    match Graph::build(libs, netlist) {
        Err(e) => e,
        Ok(_) => panic!("the netlist is accepted"),
    }
}

#[test]
fn refused_netlists_say_why() {
    let libs = [library(LIB)];
    let mut n = and2();
    n.ports[0].1 = PortDir::Inout;
    assert_eq!(refused(&libs, &n), "port a: bidirect ports are not modelled");
    let mut n = and2();
    n.nets[0].pins.push(Conn::Port(1));
    assert_eq!(refused(&libs, &n), "net a: multiple drivers are not modelled");
    let bidirect = [library("library (t) { cell (pad) { pin (P) { direction : inout ; } } }")];
    let n = Netlist { insts: vec![("p".into(), "pad".into())], ports: vec![], nets: vec![] };
    assert_eq!(refused(&bidirect, &n), "p/P: bidirect pins are not modelled");
}

/// An instance of a cell that no library has is physical only: it has nothing to time.
#[test]
fn a_physical_only_cell_is_left_out() {
    let libs = [library(LIB)];
    let mut n = and2();
    n.insts[0].1 = "tap".into();
    let g = Graph::build(&libs, &n).unwrap();
    assert_eq!(g.vertices.iter().map(|v| v.name.as_str()).collect::<Vec<_>>(), ["a", "b", "y"]);
    assert_eq!(g.edges.len(), 0);
    assert_eq!(g.vertex_net, [Some(0), Some(1), Some(2)]);
}

/// A loop and a latch's data arc are refused when delays are calculated.
#[test]
fn loops_and_latch_data_arcs_are_refused() {
    let libs = [library(LIB)];
    let netlist = Netlist {
        insts: vec![("u1".into(), "and2".into())],
        ports: vec![("b".into(), PortDir::Input)],
        nets: vec![
            net("loop", vec![inst(0, "A"), inst(0, "Y")]),
            net("b", vec![inst(0, "B"), Conn::Port(0)]),
        ],
    };
    let mut g = Graph::build(&libs, &netlist).unwrap();
    assert_eq!(
        g.find_delays(&NameMap::new(), &logs(&libs), &mut None),
        Err("the timing graph has a loop — not modelled".to_string())
    );
    let libs = [library(
        r#"library (t) { cell (lat) { latch (IQ, IQN) { enable : "G" ; data_in : "D" ; }
            pin (D) { direction : input; } pin (G) { direction : input; }
            pin (Q) { direction : output; function : "IQ";
              timing () { related_pin : "D"; timing_sense : positive_unate;
                cell_rise (scalar) { values ("0.1"); } rise_transition (scalar) { values ("1.0"); } } } } }"#,
    )];
    let netlist = Netlist { insts: vec![("u".into(), "lat".into())], ports: vec![], nets: vec![] };
    let mut g = Graph::build(&libs, &netlist).unwrap();
    assert_eq!(
        g.find_delays(&NameMap::new(), &logs(&libs), &mut None),
        Err("latch D->Q arcs are not modelled".to_string())
    );
}

/// A table with an empty axis cannot be looked up.
#[test]
fn a_lookup_outside_a_table_is_refused() {
    let libs = [library(
        r#"library (t) {
          lu_table_template (e) { variable_1 : input_net_transition ; }
          cell (bad) { pin (A) { direction : input; }
            pin (Y) { direction : output; function : "A";
              timing () { related_pin : "A"; timing_sense : positive_unate;
                cell_rise (e) { values ("0.1"); } rise_transition (scalar) { values ("1.0"); } } } } }"#,
    )];
    let netlist = Netlist { insts: vec![("u".into(), "bad".into())], ports: vec![], nets: vec![] };
    let mut g = Graph::build(&libs, &netlist).unwrap();
    assert_eq!(
        g.find_delays(&NameMap::new(), &logs(&libs), &mut None),
        Err("a table lookup reads outside its table".to_string())
    );
}

/// One gate behind another: `u1/Y` drives `u2/A`, whose pin is what the net's capacitance is.
fn chain() -> Netlist {
    Netlist {
        insts: vec![("u1".into(), "and2".into()), ("u2".into(), "and2".into())],
        ports: vec![("a".into(), PortDir::Input), ("y".into(), PortDir::Output)],
        nets: vec![
            net("a", vec![inst(0, "A"), Conn::Port(0)]),
            net("m", vec![inst(0, "Y"), inst(1, "A")]),
            net("y", vec![inst(1, "Y"), Conn::Port(1)]),
        ],
    }
}

/// A trace changes neither slews nor delays; it is only added to, and by lines of the calculator.
#[test]
fn a_trace_changes_nothing() {
    let libs = [library(LIB)];
    let netlist = chain();
    let parasitics = wired("m", "u1/Y", "u2/A");
    let mut quiet = Graph::build(&libs, &netlist).unwrap();
    quiet.find_delays(&parasitics, &logs(&libs), &mut None).unwrap();
    let mut traced = Graph::build(&libs, &netlist).unwrap();
    let mut trace = Some(vec!["before".to_string()]);
    traced.find_delays(&parasitics, &logs(&libs), &mut trace).unwrap();
    assert_eq!((&quiet.slew, &quiet.delay), (&traced.slew, &traced.delay));
    let lines = trace.unwrap();
    assert_eq!(lines[0], "before");
    assert!(lines.len() > 1);
    assert!(lines[1..].iter().all(|l| l.starts_with("dcalc|gate|") || l.starts_with("dcalc|load|")));
    let mut bare = Graph::build(&libs, &netlist).unwrap();
    let mut trace = Some(vec!["before".to_string()]);
    bare.find_delays(&NameMap::new(), &logs(&libs), &mut trace).unwrap();
    assert_eq!(trace.unwrap(), ["before"]);
}

/// With a parasitic under the pin capacitance of its net, delays are those without the parasitic.
#[test]
fn a_dropped_parasitic_leaves_the_delays_without_it() {
    let libs = [library(LIB)];
    let netlist = chain();
    let with_caps = |cap: f32| {
        let mut m = NameMap::new();
        m.insert("m".into(), NetParasitics {
            node_names: vec!["u1/Y".into(), "mid".into()],
            network: Network { node_caps: vec![f(0.0), f(cap)], resistors: vec![(0, 1, f(1000.0))] },
        });
        let mut g = Graph::build(&libs, &netlist).unwrap();
        let mut trace = Some(Vec::new());
        g.find_delays(&m, &logs(&libs), &mut trace).unwrap();
        (g.slew, g.delay, trace.unwrap().len())
    };
    let mut g = Graph::build(&libs, &netlist).unwrap();
    g.find_delays(&NameMap::new(), &logs(&libs), &mut None).unwrap();
    assert_eq!(with_caps(0.0005e-12), (g.slew, g.delay, 0));
    assert!(with_caps(0.01e-12).2 > 0, "one above it is not dropped");
}

/// A node without a name is no pin, and a name without a node is none that a driver needs.
#[test]
fn nodes_need_no_names() {
    let libs = [library(LIB)];
    let netlist = chain();
    let run = |names: &[&str]| {
        let mut m = NameMap::new();
        m.insert("m".into(), NetParasitics {
            node_names: names.iter().map(|n| n.to_string()).collect(),
            network: Network {
                node_caps: vec![f(0.0), f(2e-14), f(1e-14)],
                resistors: vec![(0, 1, f(1000.0)), (1, 2, f(2000.0))],
            },
        });
        let mut g = Graph::build(&libs, &netlist).unwrap();
        g.find_delays(&m, &logs(&libs), &mut None).unwrap();
        (g.slew, g.delay)
    };
    assert_eq!(run(&["u1/Y"]), run(&["u1/Y", "mid", "end"]));
    assert_eq!(run(&["u1/Y", "mid", "u2/A"]), run(&["u1/Y", "mid", "u2/A", "over"]));
    assert_ne!(run(&["u1/Y"]), run(&["u1/Y", "mid", "u2/A"]));
}

/// The slew that a driver keeps is one that an arc into it gives: the greatest for max, the least for
/// min.
#[test]
fn a_kept_slew_is_one_of_the_arcs() {
    let libs = [library(&LIB.replace("1.0000005", "3.0"))];
    let netlist = and2();
    let mut g = Graph::build(&libs, &netlist).unwrap();
    g.find_delays(&NameMap::new(), &logs(&libs), &mut None).unwrap();
    for name in ["u1/Y", "y"] {
        for rf in [RISE, FALL] {
            let slew = g.slew[place(&g, name)][rf];
            assert_eq!((slew[MIN], slew[MAX]), (f(1.0 * 1e-9), f(3.0 * 1e-9)), "{name}");
        }
    }
}

#[test]
fn copies_hold_the_same() {
    let libs = [library(LIB)];
    let netlist = and2();
    assert_eq!(netlist.clone(), netlist);
    assert_eq!(netlist.nets[0].clone(), netlist.nets[0]);
    let none = Netlist::default();
    assert_eq!((none.insts.len(), none.ports.len(), none.nets.len()), (0, 0, 0));
    assert_eq!(Net::default(), net("", vec![]));
    let g = Graph::build(&libs, &netlist).unwrap();
    let v = g.vertices[2].clone();
    assert_eq!((v.name.as_str(), &v.conn, v.is_driver), ("u1/Y", &inst(0, "Y"), true));
    assert_eq!((v.lib, v.cell, v.port), (Some(0), Some("and2".to_string()), Some("Y".to_string())));
    let m = wired("y", "u1/Y", "y");
    assert_eq!(m.clone(), m);
    assert_eq!(m.get("y").unwrap().clone(), *m.get("y").unwrap());
    assert_eq!(NetParasitics::default(), NetParasitics { node_names: vec![], network: Network::default() });
}
