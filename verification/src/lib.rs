//! Static timing analysis with fully specified arithmetic: every value is narrowed at a defined
//! point (single or double precision), tables interpolate in a defined order, and every merge visits
//! its candidates in a defined order. The results are reproducible bit for bit, which is what a
//! timing-driven router needs: it orders nets by slack, and slack gaps are far smaller than any
//! approximation's error.
//!
//! The pipeline, in data-flow order:
//! - [`liberty_parse`]: liberty syntax, every value kept as the reader keeps it.
//! - [`liberty`]: the library: units, cells, ports, timing arcs.
//! - [`table`]: NLDM tables and their lookup.
//! - [`parasitics`]: a net's RC network reduced to a pi model and per-load Elmore delays.
//! - [`dcalc`]: gate and wire delay (DMP effective capacitance, Elmore).
//! - [`netlist`], [`graph`], [`topology`], [`delays`]: the timing graph and delay calculation over
//!   it.
//! - [`sdc`], [`levels`], [`search`], [`arrivals`], [`requireds`]: the clock and port delays;
//!   arrivals, requireds and slacks.
//!
//! [`float32`] and [`float64`] are the numbers all of it computes with, on [`rounding`],
//! [`magnitude`], [`identities`] and [`whole`]; [`fuzzy`] is the tolerant comparison every merge
//! uses. What is proved of several functions together stands in [`liberty_space`], [`liberty_tree`],
//! [`liberty_laws`], [`cell_laws`], [`grid`], [`model_laws`], [`loops`], [`moment_laws`],
//! [`dmp_laws`], [`newton_laws`], [`waveform_laws`], [`gate_laws`], [`edge_laws`], [`calc_laws`],
//! [`root_laws`], [`delay_laws`], [`arc_delay_laws`], [`delay_order`], [`merges`], [`kept`],
//! [`lumped`], [`trace_laws`], [`line_laws`], [`pin_cap_laws`], [`cycles`], [`tag_laws`],
//! [`arrival_laws`], [`crpr_laws`] and [`required_laws`].

pub mod arc_delay_laws;
pub mod arrival_laws;
pub mod arrivals;
pub mod calc_laws;
pub mod cell_laws;
pub mod crpr_laws;
pub mod cycles;
pub mod dcalc;
pub mod decimal;
pub mod delay_laws;
pub mod delay_order;
pub mod delays;
pub mod dmp_laws;
pub mod edge_laws;
pub mod exact;
pub mod float32;
pub mod float64;
pub mod fuzzy;
pub mod gate_laws;
pub mod graph;
pub mod grid;
pub mod identities;
pub mod kept;
pub mod levels;
pub mod liberty;
pub mod liberty_laws;
pub mod liberty_parse;
pub mod liberty_space;
pub mod liberty_tree;
pub mod line_laws;
pub mod loops;
pub mod lumped;
pub mod magnitude;
pub mod merges;
pub mod model_laws;
pub mod moment_laws;
pub mod names;
pub mod natural;
pub mod netlist;
pub mod newton_laws;
pub mod number;
pub mod parasitics;
pub mod pin_cap_laws;
pub mod required_laws;
pub mod requireds;
pub mod root_laws;
pub mod rounding;
pub mod sdc;
pub mod search;
pub mod shortest;
pub mod table;
pub mod tag_laws;
pub mod text;
pub mod topology;
pub mod trace_laws;
pub mod waveform_laws;
pub mod whole;
