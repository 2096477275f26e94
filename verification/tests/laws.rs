use vyges_sta::dcalc::{ThresholdLogs, Thresholds};
use vyges_sta::delays::LibraryLogs;
use vyges_sta::float32::F32;
use vyges_sta::float64::F64;
use vyges_sta::fuzzy;
use vyges_sta::graph::{EdgeKind, Graph};
use vyges_sta::liberty::{Library, FALL, MAX, MIN, RISE};
use vyges_sta::liberty_parse::{parse, tokenize, Tok};
use vyges_sta::names::NameMap;
use vyges_sta::netlist::{Conn, Net, Netlist, PortDir};
use vyges_sta::sdc::{setup_required_time, Clock, PortDelay, Sdc};
use vyges_sta::search::{Path, Search, INF};
use vyges_sta::table::{Axis, AxisVar, Table};

fn f(x: f32) -> F32 {
    F32(x.to_bits())
}

fn hard(x: F32) -> f32 {
    f32::from_bits(x.to_bits())
}

fn log(x: F64) -> F64 {
    F64(f64::from_bits(x.to_bits()).ln().to_bits())
}

fn logs_of(t: Thresholds) -> ThresholdLogs {
    let (vth, rest, slew) = t.log_arguments();
    ThresholdLogs { vth: log(vth), rest: log(rest), slew: log(slew) }
}

fn logs(libs: &[Library]) -> Vec<LibraryLogs> {
    libs.iter()
        .map(|l| LibraryLogs {
            output: [logs_of(l.output_thresholds(RISE)), logs_of(l.output_thresholds(FALL))],
            input: [logs_of(l.input_thresholds(RISE)), logs_of(l.input_thresholds(FALL))],
        })
        .collect()
}

/// A clock gate whose two inputs have different delays and slews, and a register.
const LIB: &str = r#"library (t) {
  time_unit : "1ns"; capacitive_load_unit (1, pf);
  cell (and2) {
    pin (A) { direction : input; capacitance : 0.001; }
    pin (B) { direction : input; capacitance : 0.001; }
    pin (Y) { direction : output; function : "A&B";
      timing () { related_pin : "A"; timing_sense : positive_unate;
        cell_rise (scalar) { values ("0.1"); } rise_transition (scalar) { values ("0.05"); }
        cell_fall (scalar) { values ("0.1"); } fall_transition (scalar) { values ("0.05"); } }
      timing () { related_pin : "B"; timing_sense : positive_unate;
        cell_rise (scalar) { values ("0.3"); } rise_transition (scalar) { values ("0.2"); }
        cell_fall (scalar) { values ("0.3"); } fall_transition (scalar) { values ("0.2"); } } }
  }
  cell (dff) {
    ff (IQ, IQN) { clocked_on : "CLK"; next_state : "D"; }
    pin (CLK) { direction : input; capacitance : 0.001; clock : true; }
    pin (D) { direction : input; capacitance : 0.001;
      timing () { related_pin : "CLK"; timing_type : setup_rising;
        rise_constraint (scalar) { values ("0.05"); } fall_constraint (scalar) { values ("0.06"); } } }
    pin (Q) { direction : output; function : "IQ";
      timing () { related_pin : "CLK"; timing_type : rising_edge;
        cell_rise (scalar) { values ("0.3"); } rise_transition (scalar) { values ("0.1"); }
        cell_fall (scalar) { values ("0.35"); } fall_transition (scalar) { values ("0.1"); } } }
  }
}"#;

/// clk -> g1/{A, B}; g1/Y -> {f1, f2}/CLK; in -> f1/D; f1/Q -> f2/D; f2/Q -> out.
fn netlist() -> Netlist {
    let i = |k: usize, p: &str| Conn::Inst(k, p.into());
    let net = |n: &str, pins: Vec<Conn>| Net { name: n.into(), pins };
    Netlist {
        insts: vec![
            ("g1".into(), "and2".into()),
            ("f1".into(), "dff".into()),
            ("f2".into(), "dff".into()),
        ],
        ports: vec![
            ("clk".into(), PortDir::Input),
            ("in".into(), PortDir::Input),
            ("out".into(), PortDir::Output),
        ],
        nets: vec![
            net("clk", vec![i(0, "A"), i(0, "B"), Conn::Port(0)]),
            net("ck", vec![i(0, "Y"), i(1, "CLK"), i(2, "CLK")]),
            net("in", vec![i(1, "D"), Conn::Port(1)]),
            net("q1", vec![i(1, "Q"), i(2, "D")]),
            net("out", vec![i(2, "Q"), Conn::Port(2)]),
        ],
    }
}

fn sdc(propagated: bool) -> Sdc {
    Sdc {
        clock: Clock::new("c", f(1e-9), "clk", propagated),
        input_delays: vec![PortDelay::uniform("in", f(0.2e-9))],
        output_delays: vec![PortDelay::uniform("out", f(0.2e-9))],
    }
}

fn timed<R>(propagated: bool, body: impl FnOnce(&mut Search, &dyn Fn(&str) -> usize) -> R) -> R {
    let libs = vec![Library::read(&parse(LIB).unwrap()).unwrap()];
    let (netlist, sdc) = (netlist(), sdc(propagated));
    let mut g = Graph::build(&libs, &netlist).unwrap();
    g.find_delays(&NameMap::new(), &logs(&libs), &mut None).unwrap();
    let mut s = Search::new(&g, &sdc, (0..g.vertices.len()).collect());
    s.find_arrivals().unwrap();
    s.find_requireds().unwrap();
    let v = |n: &str| g.vertices.iter().position(|x| x.name == n).unwrap();
    body(&mut s, &v)
}

fn find(s: &Search, v: usize, rf: usize, mm: usize, is_clock: bool) -> Path {
    *s.paths[v].iter().find(|p| p.tag.rf == rf && p.tag.mm == mm && p.tag.is_clock == is_clock).unwrap()
}

/// Over its arcs a driver keeps the greatest slew for max and the least for min, and so do its loads.
#[test]
fn a_driver_keeps_the_worst_of_its_arcs() {
    timed(true, |s, v| {
        let (least, most) = (f(0.05f32 * 1e-9), f(0.2f32 * 1e-9));
        for pin in ["g1/Y", "f1/CLK", "f2/CLK"] {
            for rf in [RISE, FALL] {
                assert_eq!(s.graph.slew[v(pin)][rf], [least, most], "{pin}");
            }
        }
    });
}

/// Every path starts at the clock or an input delay, or adds an arc's delay to the path before it;
/// none that reaches a pin beats the path of its tag there.
#[test]
fn every_arrival_is_a_sum_and_none_is_lost() {
    timed(true, |s, v| {
        let mut sums = 0;
        for (at, list) in s.paths.iter().enumerate() {
            for p in list {
                match p.prev {
                    None => assert!(at == v("clk") || at == v("in")),
                    Some(prev) => {
                        let from = s.paths[prev.vertex].iter().find(|q| q.tag.matches(&prev.tag)).unwrap();
                        let delay = s.graph.delay[prev.edge][prev.arc][p.tag.mm];
                        assert_eq!(p.arrival, from.arrival + delay);
                        assert_eq!(s.graph.edges[prev.edge].to, at);
                        sums += 1;
                    }
                }
            }
        }
        assert!(sums > 20);
        let y = v("g1/Y");
        for rf in [RISE, FALL] {
            let edge = s.sdc.clock.edge_time(rf);
            assert_eq!(find(s, y, rf, MIN, true).arrival, edge + f(0.1f32 * 1e-9));
            assert_eq!(find(s, y, rf, MAX, true).arrival, edge + f(0.3f32 * 1e-9));
        }
    });
}

/// Finding arrivals or requireds again changes nothing.
#[test]
fn a_search_is_settled() {
    timed(true, |s, _| {
        let before = s.paths.clone();
        s.find_requireds().unwrap();
        assert_eq!(s.paths, before);
        s.find_arrivals().unwrap();
        s.find_requireds().unwrap();
        assert_eq!(s.paths, before);
    });
}

/// A max path's required is not above that of a path it goes to, less the arc's delay.
#[test]
fn requireds_go_back_along_arcs() {
    timed(true, |s, v| {
        let (q, d) = (v("f1/Q"), v("f2/D"));
        let wire = (0..s.graph.edges.len()).find(|&e| s.graph.edges[e].from == q && s.graph.edges[e].to == d).unwrap();
        assert!(matches!(s.graph.edges[wire].kind, EdgeKind::Wire));
        for rf in [RISE, FALL] {
            let (a, b) = (find(s, q, rf, MAX, false), find(s, d, rf, MAX, false));
            assert_eq!(a.required, b.required - s.graph.delay[wire][rf][MAX]);
            assert_eq!(find(s, q, rf, MIN, false).required, F32(INF).negate());
        }
        let launch = find(s, v("f1/CLK"), RISE, MAX, true);
        for rf in [RISE, FALL] {
            let a = find(s, q, rf, MAX, false);
            let delay = if rf == RISE { f(0.3f32 * 1e-9) } else { f(0.35f32 * 1e-9) };
            assert!(!fuzzy::less(a.required - delay, launch.required));
        }
    });
}

/// The spread of the shared clock path is given back to a setup check, where the clock is
/// propagated.
#[test]
fn the_common_clock_path_is_credited() {
    let required = |propagated: bool| timed(propagated, |s, v| find(s, v("f2/D"), RISE, MAX, false).required);
    let (early, late) = (0.0f32 + 0.1f32 * 1e-9, 0.0f32 + 0.3f32 * 1e-9);
    let without = ((0.0 + ((early - 0.0) - 0.0)) + 1e-9f32) - (0.05f32 * 1e-9 + 0.0);
    assert_eq!(hard(required(false)), without + 0.0);
    assert_eq!(hard(required(true)), without + (late - early).abs());
    assert!(required(false).lt(required(true)));
    timed(true, |s, v| {
        let at_input = find(s, v("f1/D"), RISE, MAX, false);
        assert_eq!(at_input.tag.crpr, None);
        assert_eq!(hard(at_input.required), without + 0.0);
    });
}

/// A net's slack is the fuzzily least of its loads'; a vertex's the fuzzily least of its max paths'.
#[test]
fn slacks_are_the_least() {
    timed(true, |s, v| {
        let loads = [v("f1/CLK"), v("f2/CLK"), v("f2/D"), v("out")];
        let net = s.net_slack(&loads);
        assert!(loads.iter().any(|&l| s.vertex_slack(l) == net));
        for l in loads {
            assert!(!fuzzy::less(s.vertex_slack(l), net));
            for p in s.paths[l].iter().filter(|p| p.tag.mm == MAX) {
                assert!(!fuzzy::less(p.required - p.arrival, s.vertex_slack(l)));
            }
        }
        assert_eq!(s.net_slack(&loads[2..3]), s.vertex_slack(loads[2]));
        assert_eq!(s.vertex_slack(v("f1/Q")), s.vertex_slack(v("f2/D")));
    });
}

/// A graph with a loop has no arrivals and no requireds.
#[test]
fn a_loop_has_no_arrivals() {
    let libs = vec![Library::read(&parse(LIB).unwrap()).unwrap()];
    let netlist = Netlist {
        insts: vec![("u".into(), "and2".into())],
        ports: vec![],
        nets: vec![Net { name: "l".into(), pins: vec![Conn::Inst(0, "A".into()), Conn::Inst(0, "Y".into())] }],
    };
    let sdc = sdc(true);
    let g = Graph::build(&libs, &netlist).unwrap();
    let mut s = Search::new(&g, &sdc, (0..g.vertices.len()).collect());
    let why = Err("the timing graph has a loop — not modelled".to_string());
    assert_eq!(s.find_arrivals(), why);
    assert_eq!(s.find_requireds(), why);
    assert!(s.paths.iter().all(|p| p.is_empty()));
}

/// The edge of the first cycle where it is after the source edge, else that of the second.
#[test]
fn setup_edges_are_of_the_first_or_second_cycle() {
    for period in [1.0f32, 1.78e-9, 3.3e-10, 7.77e-12, 1.0e20] {
        for i in 0..16 {
            for j in 0..16 {
                let (src, tgt) = (period * (i as f32 / 16.0), period * (j as f32 / 16.0));
                let c = Clock { waveform: [f(src), f(tgt)], ..Clock::new("c", f(period), "clk", true) };
                let expected = if tgt > src { tgt } else { (f64::from(period) + f64::from(tgt)) as f32 };
                assert_eq!(setup_required_time(&c, RISE, FALL), f(expected), "{period} {src} {tgt}");
            }
        }
    }
    let tiny = Clock { waveform: [f(0.0), f(1e-12)], ..Clock::new("c", f(1.0), "clk", true) };
    assert_eq!(setup_required_time(&tiny, RISE, FALL), f(1e-12));
    let late = Clock { waveform: [f(0.9999999), f(0.0)], ..Clock::new("c", f(1.0), "clk", true) };
    assert_eq!(setup_required_time(&late, RISE, FALL), f(2.0), "the second cycle's edge is not after it");
}

/// Less and greater are transitive though fuzzy equality is not.
#[test]
fn fuzzy_order_is_transitive() {
    let step = |k: u32| F32(1.0f32.to_bits() + k);
    assert!(fuzzy::equal(step(0), step(6)) && fuzzy::equal(step(6), step(12)) && !fuzzy::equal(step(0), step(12)));
    let mut values: Vec<F32> = (0..40).map(|k| step(3 * k)).collect();
    for x in [0.0f32, 1e-16, -1e-16, 1e-14, -1.0, -1.000001, 1e30, -1e30, f32::INFINITY, f32::NEG_INFINITY] {
        values.push(f(x));
    }
    for &a in &values {
        for &b in &values {
            for &c in &values {
                if fuzzy::less(a, b) && fuzzy::less(b, c) {
                    assert!(fuzzy::less(a, c), "{} {} {}", hard(a), hard(b), hard(c));
                }
                if fuzzy::greater(a, b) && fuzzy::greater(b, c) {
                    assert!(fuzzy::greater(a, c));
                }
            }
        }
    }
    for x in [0.0f32, 1.0, -1.0, 4.9e29, -4.9e29] {
        assert!(fuzzy::less(f(x), f(1e30)) && fuzzy::greater(f(x), f(-1e30)));
    }
}

/// What is looked up on an axis of one value does not matter.
#[test]
fn an_axis_of_one_value_takes_no_interpolation() {
    let axis = |n: usize| Axis { var: AxisVar::Other, values: (0..n).map(|k| f(k as f32)).collect() };
    let table = |sizes: &[usize]| Table {
        axes: sizes.iter().map(|&n| axis(n)).collect(),
        values: (0..sizes.iter().product()).map(|k: usize| f(k as f32)).collect(),
    };
    assert_eq!(table(&[1]).find_value(f(7.0), f(0.0), f(0.0)), Some(f(0.0)));
    assert_eq!(table(&[1, 3]).find_value(f(7.0), f(1.5), f(0.0)), Some(f(1.5)));
    assert_eq!(table(&[3, 1]).find_value(f(0.5), f(-4.0), f(9.0)), Some(f(0.5)));
    for x in [-3.0f32, 0.0, 8.0] {
        assert_eq!(table(&[2, 1, 3]).find_value(f(1.0), f(x), f(0.5)), Some(f(3.5)));
    }
}

/// Blanks, line breaks, continuations and comments between tokens change lines alone.
#[test]
fn space_between_tokens_is_skipped() {
    let kinds = |text: &str| -> Vec<Tok> { tokenize(text).unwrap().into_iter().map(|(t, _)| t).collect() };
    let plain = kinds("cell(A){area:1.5;k(1,\"a b\");}");
    assert_eq!(kinds(" \t\r\n cell ( A )\n{ area : 1.5 ; k ( 1 , \"a b\" ) ; }"), plain);
    assert_eq!(kinds("/* one\n * two **/cell\\\n(A)/**/{area:1.5;/* x */k(1,\"a b\");}"), plain);
    assert_eq!(tokenize("/*\n\n*/ a").unwrap(), vec![(Tok::Word("a".into()), 3)]);
    assert_eq!(tokenize("\\\na").unwrap(), vec![(Tok::Word("a".into()), 2)]);
}

/// A check's delay is its table at the final slews: the clock's of the opposite min/max, the data's of
/// its own.
#[test]
fn a_check_reads_the_final_slews() {
    let text = LIB
        .replace(
            "cell (and2)",
            r#"lu_table_template (check) {
                 variable_1 : related_pin_transition; variable_2 : constrained_pin_transition;
                 index_1 ("0.05, 0.2"); index_2 ("0.1, 1.0"); }
               cell (and2)"#,
        )
        .replace(r#"rise_constraint (scalar) { values ("0.05"); }"#, r#"rise_constraint (check) { values ("1, 2", "3, 4"); }"#);
    let libs = vec![Library::read(&parse(&text).unwrap()).unwrap()];
    let netlist = netlist();
    let mut g = Graph::build(&libs, &netlist).unwrap();
    g.find_delays(&NameMap::new(), &logs(&libs), &mut None).unwrap();
    let at = |n: &str| g.vertices.iter().position(|x| x.name == n).unwrap();
    let (clk, d) = (at("f2/CLK"), at("f2/D"));
    assert_eq!(g.slew[clk][RISE], [f(0.05 * 1e-9), f(0.2 * 1e-9)]);
    let e = (0..g.edges.len()).find(|e| g.is_check(*e) && g.edges[*e].from == clk && g.edges[*e].to == d).unwrap();
    let rise = g.delay[e][0];
    assert_eq!((rise[MAX], rise[MIN]), (f(1.0 * 1e-9), f(3.0 * 1e-9)));
}

/// Without a parasitic a load of the driver's library ends with the driver's slew, its wire with
/// delay 0, for each transition and min/max.
#[test]
fn a_lumped_net_ends_level() {
    timed(true, |s, v| {
        for (driver, load) in [("g1/Y", "f1/CLK"), ("g1/Y", "f2/CLK"), ("f1/Q", "f2/D"), ("in", "f1/D")] {
            let (driver, load) = (v(driver), v(load));
            assert_eq!(s.graph.slew[driver], s.graph.slew[load]);
            let wire = (0..s.graph.edges.len())
                .find(|e| s.graph.edges[*e].from == driver && s.graph.edges[*e].to == load)
                .unwrap();
            assert_eq!(s.graph.delay[wire], [[f(0.0); 2]; 2]);
        }
        assert_ne!(s.graph.slew[v("g1/Y")][RISE][MIN], s.graph.slew[v("g1/Y")][RISE][MAX]);
    });
}
