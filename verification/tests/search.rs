use vyges_sta::dcalc::{ThresholdLogs, Thresholds};
use vyges_sta::delays::LibraryLogs;
use vyges_sta::float32::F32;
use vyges_sta::float64::F64;
use vyges_sta::graph::Graph;
use vyges_sta::liberty::{Library, Role, FALL, MAX, MIN, RISE};
use vyges_sta::liberty_parse::parse;
use vyges_sta::names::NameMap;
use vyges_sta::netlist::{Conn, Net, Netlist, PortDir};
use vyges_sta::sdc::{Clock, PortDelay, Sdc};
use vyges_sta::search::{is_check_role, CrprPath, Path, Search, Tag, INF};

fn f(x: f32) -> F32 {
    F32(x.to_bits())
}

fn log(x: F64) -> F64 {
    F64(f64::from_bits(x.to_bits()).ln().to_bits())
}

fn logs_of(t: Thresholds) -> ThresholdLogs {
    let (vth, rest, slew) = t.log_arguments();
    ThresholdLogs { vth: log(vth), rest: log(rest), slew: log(slew) }
}

fn logs(libs: &[Library]) -> Vec<LibraryLogs> {
    libs.iter()
        .map(|l| LibraryLogs {
            output: [logs_of(l.output_thresholds(RISE)), logs_of(l.output_thresholds(FALL))],
            input: [logs_of(l.input_thresholds(RISE)), logs_of(l.input_thresholds(FALL))],
        })
        .collect()
}

const LIB: &str = r#"library (t) {
  time_unit : "1ns"; capacitive_load_unit (1, pf);
  cell (buf) {
    pin (A) { direction : input; capacitance : 0.001; }
    pin (X) { direction : output; function : "A";
      timing () { related_pin : "A"; timing_sense : positive_unate;
        cell_rise (scalar) { values ("0.1"); } rise_transition (scalar) { values ("0.05"); }
        cell_fall (scalar) { values ("0.1"); } fall_transition (scalar) { values ("0.05"); } } }
  }
  cell (dff) {
    ff (IQ, IQN) { clocked_on : "CLK"; next_state : "D"; }
    pin (CLK) { direction : input; capacitance : 0.001; clock : true; }
    pin (D) { direction : input; capacitance : 0.001;
      timing () { related_pin : "CLK"; timing_type : setup_rising;
        rise_constraint (scalar) { values ("0.05"); } fall_constraint (scalar) { values ("0.06"); } } }
    pin (Q) { direction : output; function : "IQ";
      timing () { related_pin : "CLK"; timing_type : rising_edge;
        cell_rise (scalar) { values ("0.3"); } rise_transition (scalar) { values ("0.1"); }
        cell_fall (scalar) { values ("0.35"); } fall_transition (scalar) { values ("0.1"); } } }
  }
}"#;

/// clk -> b1 -> {f1, f2}/CLK; in -> f1/D; f1/Q -> f2/D; f2/Q -> out. Period 1 ns, io 0.2 ns.
fn design() -> (Vec<Library>, Netlist, Sdc) {
    let libs = vec![Library::read(&parse(LIB).unwrap()).unwrap()];
    let i = |k: usize, p: &str| Conn::Inst(k, p.into());
    let net = |n: &str, pins: Vec<Conn>| Net { name: n.into(), pins };
    let netlist = Netlist {
        insts: vec![
            ("b1".into(), "buf".into()),
            ("f1".into(), "dff".into()),
            ("f2".into(), "dff".into()),
        ],
        ports: vec![
            ("clk".into(), PortDir::Input),
            ("in".into(), PortDir::Input),
            ("out".into(), PortDir::Output),
        ],
        nets: vec![
            net("clk", vec![i(0, "A"), Conn::Port(0)]),
            net("cb", vec![i(0, "X"), i(1, "CLK"), i(2, "CLK")]),
            net("in", vec![i(1, "D"), Conn::Port(1)]),
            net("q1", vec![i(1, "Q"), i(2, "D")]),
            net("out", vec![i(2, "Q"), Conn::Port(2)]),
        ],
    };
    let sdc = Sdc {
        clock: Clock::new("c", f(1e-9), "clk", true),
        input_delays: vec![PortDelay::uniform("in", f(0.2e-9))],
        output_delays: vec![PortDelay::uniform("out", f(0.2e-9))],
    };
    (libs, netlist, sdc)
}

fn timed<R>(body: impl FnOnce(&Search, &dyn Fn(&str) -> usize) -> R) -> R {
    let (libs, netlist, sdc) = design();
    let mut g = Graph::build(&libs, &netlist).unwrap();
    g.find_delays(&NameMap::new(), &logs(&libs), &mut None).unwrap();
    let ids = (0..g.vertices.len()).collect();
    let mut s = Search::new(&g, &sdc, ids);
    s.find_arrivals().unwrap();
    s.find_requireds().unwrap();
    let v = |n: &str| g.vertices.iter().position(|x| x.name == n).unwrap();
    body(&s, &v)
}

fn path(s: &Search, v: usize, rf: usize, is_clock: bool) -> Path {
    *s.paths[v].iter().find(|p| p.tag.rf == rf && p.tag.mm == MAX && p.tag.is_clock == is_clock).unwrap()
}

/// A clock tag entering a register clock pin over an arc with equal min/max delay takes the driving
/// path as its CRPR clock path, and the launched data tag keeps it: the clock buffer's output, not
/// the register's clock pin.
#[test]
fn launched_data_tags_carry_the_clock_nets_driver_as_crpr_path() {
    timed(|s, v| {
        let ck = path(s, v("f1/CLK"), RISE, true);
        assert_eq!(ck.tag.crpr.map(|c| c.vertex), Some(v("b1/X")));
        let q = path(s, v("f1/Q"), RISE, false);
        assert_eq!(q.tag.crpr.map(|c| c.vertex), Some(v("b1/X")));
        assert_eq!(q.tag.clk_edge, Some(RISE));
    });
}

/// Arrivals are sums along the path: clock edge + buffer + clock-to-Q; an input's is the rise edge
/// + its delay.
#[test]
fn arrivals_are_float_sums() {
    timed(|s, v| {
        let b = 0.1f32 * 1e-9;
        assert_eq!(path(s, v("f1/CLK"), RISE, true).arrival, f(0.0 + b));
        assert_eq!(path(s, v("f1/Q"), RISE, false).arrival, f((0.0 + b) + 0.3f32 * 1e-9));
        assert_eq!(path(s, v("f1/D"), FALL, false).arrival, f(0.0 + 0.2e-9f32));
    });
}

/// ((min capture clock arrival - edge time) + cycle time) - setup; and an output's is the cycle time
/// - its delay.
#[test]
fn requireds_at_checks_and_output_delays() {
    timed(|s, v| {
        let b = 0.1f32 * 1e-9;
        let t = 1e-9f32;
        assert_eq!(
            path(s, v("f2/D"), RISE, false).required,
            f(((0.0 + ((0.0 + b) - 0.0 - 0.0)) + t) - (0.05f32 * 1e-9 + 0.0))
        );
        assert_eq!(
            path(s, v("f2/D"), FALL, false).required,
            f(((0.0 + ((0.0 + b) - 0.0 - 0.0)) + t) - (0.06f32 * 1e-9 + 0.0))
        );
        assert_eq!(path(s, v("out"), RISE, false).required, f((t + 0.0) - 0.2e-9f32));
    });
}

/// A path's slack is required - arrival; a net's is the least over its load pins.
#[test]
fn slacks_read_required_minus_arrival() {
    timed(|s, v| {
        let d = path(s, v("f2/D"), RISE, false);
        let dv = v("f2/D");
        assert!(s.vertex_slack(dv).le(d.required - d.arrival));
        assert_eq!(s.net_slack(&[dv]), s.vertex_slack(dv));
        assert_eq!(s.net_slack(&[]), F32(INF));
    });
}

/// Every vertex's paths stand in the order of their tags, one per tag.
#[test]
fn paths_are_in_tag_order_one_per_tag() {
    timed(|s, _| {
        let ids: Vec<usize> = (0..s.paths.len()).collect();
        for list in &s.paths {
            for w in list.windows(2) {
                assert!(w[0].tag.key(&ids) < w[1].tag.key(&ids));
            }
            for (i, a) in list.iter().enumerate() {
                for (j, b) in list.iter().enumerate() {
                    assert_eq!(a.tag.matches(&b.tag), i == j);
                }
            }
        }
    });
}

/// Requireds change nothing but requireds, and leave min paths unconstrained.
#[test]
fn requireds_leave_arrivals_alone() {
    let (libs, netlist, sdc) = design();
    let mut g = Graph::build(&libs, &netlist).unwrap();
    g.find_delays(&NameMap::new(), &logs(&libs), &mut None).unwrap();
    let mut s = Search::new(&g, &sdc, (0..g.vertices.len()).collect());
    assert!(s.paths.iter().all(|p| p.is_empty()));
    s.find_arrivals().unwrap();
    let before = s.paths.clone();
    s.find_requireds().unwrap();
    for (a, b) in before.iter().flatten().zip(s.paths.iter().flatten()) {
        assert_eq!((a.tag, a.arrival, a.prev), (b.tag, b.arrival, b.prev));
        if b.tag.mm == MIN {
            assert_eq!(b.required, F32(INF).negate());
        }
    }
}

/// Levels grow along every edge but checks.
#[test]
fn levels_grow_along_edges() {
    timed(|s, v| {
        for (e, edge) in s.graph.edges.iter().enumerate() {
            if !s.graph.is_check(e) {
                assert!(s.level[edge.from] < s.level[edge.to]);
            }
        }
        assert_eq!((s.level[v("clk")], s.level[v("b1/A")], s.level[v("b1/X")]), (0, 1, 2));
        assert!(s.is_reg_clk[v("f1/CLK")] && !s.is_reg_clk[v("b1/A")]);
    });
}

#[test]
fn tags_match_in_three_ways() {
    let c = |vertex: usize| Some(CrprPath { vertex, rf: 0, mm: 1, clk_edge: 0 });
    let t = Tag { rf: 1, mm: 1, clk_edge: Some(0), is_clock: false, crpr: c(3) };
    let other = Tag { crpr: c(4), ..t };
    let min = Tag { mm: 0, crpr: None, ..t };
    assert!(t.matches(&t) && !t.matches(&other) && t.matches_no_crpr(&other) && t.matches_crpr(&other));
    assert!(!t.matches_no_crpr(&min) && t.matches_crpr(&min));
    assert!(t.matches(&Tag { crpr: Some(CrprPath { vertex: 3, rf: 1, mm: 0, clk_edge: 1 }), ..t }));
    assert_eq!(t.key(&[0, 0, 0, 7]), (1, 1, 0, false, 7));
    assert_eq!(min.key(&[]), (1, 0, 0, false, -1));
    assert_eq!(Tag { clk_edge: None, crpr: None, ..t }.key(&[]), (1, 1, -1, false, -1));
}

#[test]
fn check_roles_are_the_four_checks() {
    for r in [Role::Setup, Role::Hold, Role::Recovery, Role::Removal] {
        assert!(is_check_role(r));
    }
    for r in [Role::Combinational, Role::RegClkToQ, Role::RegSetClr, Role::Other, Role::LatchEnToQ] {
        assert!(!is_check_role(r));
    }
}
