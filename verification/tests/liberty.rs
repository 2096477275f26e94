use vyges_sta::float32::F32;
use vyges_sta::liberty::{identifiers, unit_scale, Arc, Cell, Direction, Library, Model, Role};
use vyges_sta::liberty_parse::parse;

fn f(x: f32) -> F32 {
    F32(x.to_bits())
}

fn read(text: &str) -> Result<Library, String> {
    Library::read(&parse(text).unwrap())
}

fn refused(text: &str) -> String {
    match read(text) {
        Err(e) => e,
        Ok(_) => panic!("{text} is accepted"),
    }
}

/// `<1|10|100><prefix><suffix>`, both factors single precision; an unknown multiplier counts as 1.
#[test]
fn units_are_multiplier_times_prefix() {
    assert_eq!(unit_scale("1ns", "s"), f(1e-9f32));
    assert_eq!(unit_scale("10ps", "s"), f(1e-12f32 * 10.0));
    assert_eq!(unit_scale("s", "s"), f(1.0));
    assert_eq!(unit_scale("2ns", "s"), f(1e-9f32), "an unknown multiplier is 1");
}

/// Capacitance sets all four, rise/fall override a transition, a range sets min and max, the
/// default fills only what is unset.
#[test]
fn port_capacitance_layers_its_attributes() {
    let text = r#"library (l) { capacitive_load_unit (1, ff) ; default_input_pin_cap : 2 ;
        cell (C) {
          pin (A) { direction : input ; capacitance : 1.5 ; fall_capacitance : 1.25 ; }
          pin (B) { direction : input ; rise_capacitance_range (0.5, 0.75) ; }
          pin (Y) { direction : output ; }
        } }"#;
    let lib = read(text).unwrap();
    let c = lib.cells.get("C").unwrap();
    let s = 1e-15f32;
    assert_eq!(c.port("A").unwrap().capacitance, [[f(1.5 * s), f(1.5 * s)], [f(1.25 * s), f(1.25 * s)]]);
    assert_eq!(c.port("B").unwrap().capacitance, [[f(0.5 * s), f(0.75 * s)], [f(2.0 * s), f(2.0 * s)]]);
    assert_eq!(c.port("Y").unwrap().capacitance, [[f(0.0); 2]; 2]);
}

#[test]
fn other_units_and_prefixes() {
    assert_eq!(unit_scale("100us", "s"), f(1e-6f32 * 100.0));
    assert_eq!(unit_scale("1fs", "s"), f(1e-15f32));
    assert_eq!(unit_scale("", "s"), f(1.0));
    assert_eq!(unit_scale("1µs", "s"), f(1.0), "no known prefix");
}

#[test]
fn directions_are_read_by_name() {
    assert_eq!(Direction::parse("input"), Direction::Input);
    assert_eq!(Direction::parse("output"), Direction::Output);
    assert_eq!(Direction::parse("inout"), Direction::Bidirect);
    assert_eq!(Direction::parse("internal"), Direction::Internal);
    assert!(Direction::Input.is_input() && Direction::Input.loads() && !Direction::Input.drives());
    assert!(Direction::Output.drives() && !Direction::Output.loads());
    assert!(Direction::Bidirect.drives() && Direction::Bidirect.loads());
}

#[test]
fn identifiers_are_the_names_of_an_expression() {
    assert_eq!(identifiers("(A & !B[2]) | c_1^A"), vec!["A", "B[2]", "c_1", "A"]);
    assert_eq!(identifiers(" !( ) "), Vec::<String>::new());
}

fn cell_with(timing: &str) -> String {
    format!(
        r#"library (l) {{
          lu_table_template (t) {{ variable_1 : input_net_transition ; variable_2 : total_output_net_capacitance ;
            index_1 ("0, 1") ; index_2 ("0, 2, 4") ; }}
          cell (C) {{
            ff (IQ, IQN) {{ clocked_on : "CK" ; next_state : "D" ; }}
            latch (LQ, LQN) {{ enable : "G" ; data_in : "D" ; }}
            pin (A) {{ direction : input ; }}
            pin (Y) {{ direction : output ; function : "IQ" ; timing () {{ related_pin : "A" ; {timing} }} }}
            pin (Z) {{ direction : output ; function : "LQ" ; timing () {{ related_pin : "D" ; timing_sense : positive_unate ;
              cell_rise (scalar) {{ values ("1") ; }} }} }}
          }} }}"#
    )
}

const TABLES: &str = r#"cell_rise (scalar) { values ("1") ; } rise_transition (scalar) { values ("1") ; }
    cell_fall (scalar) { values ("2") ; } fall_transition (scalar) { values ("2") ; }"#;

fn pairs(arcs: &[Arc]) -> Vec<(usize, usize)> {
    arcs.iter().map(|a| (a.from_rf, a.to_rf)).collect()
}

fn set(timing: &str) -> (Role, Vec<(usize, usize)>) {
    let lib = read(&cell_with(&format!("{timing} {TABLES}"))).unwrap();
    let s = &lib.cells.get("C").unwrap().arc_sets[0];
    (s.role, pairs(&s.arcs))
}

/// The transitions of an arc set by its type and sense.
#[test]
fn arcs_follow_their_type_and_sense() {
    let c = Role::Combinational;
    assert_eq!(set("timing_sense : positive_unate ;"), (c, vec![(0, 0), (1, 1)]));
    assert_eq!(set("timing_sense : negative_unate ;"), (c, vec![(0, 1), (1, 0)]));
    assert_eq!(set("timing_sense : non_unate ;"), (c, vec![(1, 1), (0, 1), (0, 0), (1, 0)]));
    assert_eq!(
        set("timing_sense : positive_unate ; timing_type : combinational_rise ;"),
        (c, vec![(0, 0)])
    );
    assert_eq!(
        set("timing_sense : negative_unate ; timing_type : combinational_fall ;"),
        (c, vec![(0, 1)])
    );
    assert_eq!(set("timing_type : rising_edge ;"), (Role::RegClkToQ, vec![(0, 0), (0, 1)]));
    assert_eq!(set("timing_type : falling_edge ;"), (Role::RegClkToQ, vec![(1, 0), (1, 1)]));
    assert_eq!(
        set("timing_type : preset ; timing_sense : negative_unate ;"),
        (Role::RegSetClr, vec![(1, 0)])
    );
    assert_eq!(
        set("timing_type : clear ; timing_sense : positive_unate ;"),
        (Role::RegSetClr, vec![(1, 1)])
    );
    assert_eq!(set("timing_type : clear ;"), (Role::RegSetClr, vec![(1, 1), (0, 1)]));
    assert_eq!(set("timing_type : min_pulse_width ;"), (Role::Other, vec![]));
    for (name, role) in [
        ("setup", Role::Setup),
        ("hold", Role::Hold),
        ("recovery", Role::Recovery),
        ("removal", Role::Removal),
    ] {
        assert_eq!(set(&format!("timing_type : {name}_rising ;")), (role, vec![(0, 0), (0, 1)]));
        assert_eq!(set(&format!("timing_type : {name}_falling ;")), (role, vec![(1, 0), (1, 1)]));
    }
}

/// A latch's data arc is told apart from a combinational one.
#[test]
fn a_latch_data_arc_has_its_own_role() {
    let lib = read(&cell_with(&format!("timing_sense : positive_unate ; {TABLES}"))).unwrap();
    let sets = &lib.cells.get("C").unwrap().arc_sets;
    assert_eq!(sets[1].role, Role::LatchDtoQ);
    assert_eq!((sets[1].from.as_str(), sets[1].to.as_str()), ("D", "Z"));
}

#[test]
fn tables_scale_and_take_their_own_indices() {
    let text = cell_with(
        r#"timing_sense : positive_unate ;
           cell_rise (t) { values ("1, 2, 3", "4, 5, 6") ; }
           rise_transition (t) { index_2 ("1, 2") ; values ("1, 2", "3, 4") ; }"#,
    );
    let lib = read(&text).unwrap();
    let s = &lib.cells.get("C").unwrap().arc_sets[0];
    assert_eq!(pairs(&s.arcs), vec![(0, 0)], "no model for the fall");
    let Model::Gate(m) = &s.arcs[0].model else { panic!("a gate") };
    let delay = m.delay.as_ref().unwrap();
    assert_eq!(delay.values, (1..=6).map(|x| f(x as f32 * 1e-9)).collect::<Vec<_>>());
    assert_eq!(delay.axes[0].values, vec![f(0.0), f(1e-9)]);
    assert_eq!(delay.axes[1].values, vec![f(0.0), f(2.0 * 1e-12), f(4.0 * 1e-12)]);
    let slew = m.slew.as_ref().unwrap();
    assert_eq!(slew.axes[1].values, vec![f(1e-12), f(2.0 * 1e-12)]);
}

/// Every reason a library is refused for.
#[test]
fn refused_libraries_say_why() {
    assert_eq!(
        refused("library (l) { capacitive_load_unit (x, pf) ; }"),
        "capacitive_load_unit scale is not a float"
    );
    assert_eq!(
        refused("library (l) { capacitive_load_unit (1, nf) ; }"),
        "capacitive_load_units are not ff or pf"
    );
    assert_eq!(refused("library (l) { cell () { } }"), "cell without a name");
    assert_eq!(
        refused("library (l) { cell (C) { bus (b) { } } }"),
        "cell C: buses and bundles are not modelled"
    );
    assert_eq!(
        refused(&cell_with("cell_rise (u) { values (\"1\") ; }")),
        "table template u not found"
    );
    assert_eq!(refused(&cell_with("cell_rise (t) { }")), "table missing values");
    assert_eq!(
        refused(&cell_with("cell_rise (t) { values (\"1, 2\") ; }")),
        "table has 2 values, its axes 6"
    );
    assert_eq!(
        refused(&cell_with(TABLES)),
        "cell C: a combinational arc A -> Y without timing_sense is not modelled"
    );
    assert_eq!(
        refused(&cell_with(TABLES).replace("related_pin : \"A\"", "related_pin : \"CK\"")),
        "cell C: a register timing group without timing_type (from CK) is not modelled"
    );
}

#[test]
fn header_attributes_and_their_defaults() {
    let plain = read("library (l) { }").unwrap();
    assert_eq!((plain.time_scale, plain.cap_scale), (f(1e-9), f(1e-12)));
    assert_eq!(plain.input_threshold, [f(0.5); 2]);
    assert_eq!((plain.slew_lower_threshold, plain.slew_upper_threshold), ([f(0.2); 2], [f(0.8); 2]));
    assert_eq!(plain.slew_derate, f(1.0));
    let set = read(
        "library (m) { time_unit : \"10ps\" ; capacitive_load_unit (2, ff) ; input_threshold_pct_rise : 40 ;
         output_threshold_pct_fall : 60 ; slew_derate_from_library : 0.5 ; default_output_pin_cap : 3 ; }",
    )
    .unwrap();
    assert_eq!(set.name, "m");
    assert_eq!(set.time_scale, f(1e-12f32 * 10.0));
    assert_eq!(set.cap_scale, f(2.0 * 1e-15));
    assert_eq!(set.input_threshold, [f(40.0 * 0.01), f(0.5)]);
    assert_eq!(set.output_threshold, [f(0.5), f(60.0 * 0.01)]);
    assert_eq!(set.slew_derate, f(0.5));
    assert_eq!(set.default_output_pin_cap, f(3.0 * (2.0 * 1e-15)));
}

/// Of two cells of a name the last one counts.
#[test]
fn the_last_cell_of_a_name_counts() {
    let lib = read("library (l) { cell (C) { pin (A) { } } cell (C) { pin (B) { } } }").unwrap();
    let c = lib.cells.get("C").unwrap();
    assert!(c.port("A").is_none() && c.port("B").is_some());
    assert!(!lib.cells.contains_key("D"));
}

#[test]
fn libraries_and_cells_copy() {
    let lib = read(
        r#"library (t) { time_unit : "1ns"; capacitive_load_unit (1, pf);
          lu_table_template (tt) { variable_1 : input_net_transition; index_1 ("0.1, 0.2"); }
          cell (dff) { ff (IQ, IQN) { clocked_on : "CK"; next_state : "D"; }
            pin (CK) { direction : input; }
            pin (D) { direction : input; }
            pin (Q) { direction : output; function : "IQ";
              timing () { related_pin : "CK"; timing_type : rising_edge;
                cell_rise (tt) { values ("0.1, 0.2"); } rise_transition (tt) { values ("0.1, 0.2"); } } } }
          cell (buf) { pin (A) { direction : input; } } }"#,
    )
    .unwrap();
    assert_eq!(lib.clone(), lib);
    assert_eq!((lib.cells.len(), lib.cells.names()), (2, vec!["buf".to_string(), "dff".to_string()]));
    assert_eq!(lib.templates.names(), ["tt"]);
    let dff = lib.cells.get("dff").unwrap();
    assert_eq!(dff.clone(), *dff);
    assert_eq!(dff.sequentials.len(), 1);
    assert_eq!(dff.arc_sets[0].clone(), dff.arc_sets[0]);
    assert_ne!(lib.cells.get("buf").unwrap(), dff);
    assert!(format!("{lib:?}").contains("clocked") || format!("{lib:?}").contains("dff"));
    let none = Library::default();
    assert_eq!((none.name.as_str(), none.cells.len(), none.templates.len()), ("", 0, 0));
    assert_eq!((none.slew_derate, none.input_threshold), (f(0.0), [f(0.0); 2]));
    let cell = Cell::default();
    assert_eq!((cell.name.as_str(), cell.ports.len(), cell.arc_sets.len(), cell.sequentials.len()), ("", 0, 0, 0));
}
