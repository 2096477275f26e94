//! A liberty library as the timer reads it: units, cells, ports and timing arcs.
//!
//! - Numbers are single precision as the syntax reader keeps them; every value is multiplied by a
//!   single precision unit scale: `time_unit` (default 1 ns), `capacitive_load_unit` (default
//!   1 pf; `ff` is 1e-15, `pf` is 1e-12).
//! - A unit string is `<1|10|100><k|m|u|n|p|f><suffix>` (or the bare suffix): multiplier times
//!   the prefix scale, both single precision.

use vstd::prelude::*;
use vstd::string::StringExecFns;
use crate::float32::F32;
use crate::liberty_parse;
use crate::liberty_parse::{Group, GroupView, Value, ValueView};
use crate::names;
use crate::names::{NameMap, WordKind};
use crate::number;
use crate::table;
use crate::table::{Axis, AxisVar, AxisView, GateModel, GateModelView, Table, TableView};
use crate::text;

verus! {

/// A pin's direction.
#[derive(Debug, Clone, Copy, PartialEq, Eq, Structural)]
pub enum Direction {
    Input,
    Output,
    Tristate,
    Bidirect,
    Internal,
    Unknown,
}

impl Direction {
    pub open spec fn named(s: Seq<char>) -> Direction {
        if s == "input"@ {
            Direction::Input
        } else if s == "output"@ {
            Direction::Output
        } else if s == "inout"@ {
            Direction::Bidirect
        } else if s == "internal"@ {
            Direction::Internal
        } else {
            Direction::Unknown
        }
    }

    pub fn parse(s: &str) -> (r: Direction)
        ensures
            r == Direction::named(s@),
    {
        if *s == *"input" {
            Direction::Input
        } else if *s == *"output" {
            Direction::Output
        } else if *s == *"inout" {
            Direction::Bidirect
        } else if *s == *"internal" {
            Direction::Internal
        } else {
            Direction::Unknown
        }
    }

    pub fn is_input(self) -> (r: bool)
        ensures
            r == (self is Input),
    {
        self == Direction::Input
    }

    /// A driver: output, tristate or bidirect.
    pub fn drives(self) -> (r: bool)
        ensures
            r == (self is Output || self is Tristate || self is Bidirect),
    {
        matches!(self, Direction::Output | Direction::Tristate | Direction::Bidirect)
    }

    /// A load: input or bidirect.
    pub fn loads(self) -> (r: bool)
        ensures
            r == (self is Input || self is Bidirect),
    {
        matches!(self, Direction::Input | Direction::Bidirect)
    }
}

/// Transition index: rise 0, fall 1. Min/max index: min 0, max 1.
pub const RISE: usize = 0;

pub const FALL: usize = 1;

pub const MIN: usize = 0;

pub const MAX: usize = 1;

/// 1.0.
pub const ONE: u32 = 0x3f80_0000;

/// 10.0.
pub const TEN: u32 = 0x4120_0000;

/// 100.0.
pub const HUNDRED: u32 = 0x42c8_0000;

/// 1e3.
pub const KILO: u32 = 0x447a_0000;

/// 1e-3.
pub const MILLI: u32 = 0x3a83_126f;

/// 1e-6.
pub const MICRO: u32 = 0x3586_37bd;

/// 1e-9.
pub const NANO: u32 = 0x3089_705f;

/// 1e-12.
pub const PICO: u32 = 0x2b8c_bccc;

/// 1e-15.
pub const FEMTO: u32 = 0x2690_1d7d;

/// 0.01.
pub const PERCENT: u32 = 0x3c23_d70a;

/// 0.5.
pub const DEFAULT_THRESHOLD: u32 = 0x3f00_0000;

/// 0.2.
pub const DEFAULT_SLEW_LOWER: u32 = 0x3e4c_cccd;

/// 0.8.
pub const DEFAULT_SLEW_UPPER: u32 = 0x3f4c_cccd;

#[derive(Debug, PartialEq)]
pub struct Port {
    pub name: String,
    pub direction: Direction,
    pub is_clock: bool,
    /// Pin capacitance per `[rise/fall][min/max]`, after the defaults.
    pub capacitance: [[F32; 2]; 2],
}

/// Values per `[rise/fall][min/max]`.
pub open spec fn corners(c: [[F32; 2]; 2]) -> Seq<Seq<F32>> {
    seq![c[0]@, c[1]@]
}

/// What a port holds.
#[verifier::ext_equal]
pub struct PortView {
    pub name: Seq<char>,
    pub direction: Direction,
    pub is_clock: bool,
    pub capacitance: Seq<Seq<F32>>,
}

impl View for Port {
    type V = PortView;

    open spec fn view(&self) -> PortView {
        PortView {
            name: self.name@,
            direction: self.direction,
            is_clock: self.is_clock,
            capacitance: corners(self.capacitance),
        }
    }
}

impl Clone for Port {
    fn clone(&self) -> (r: Port)
        ensures
            r@ == self@,
    {
        Port {
            name: self.name.clone(),
            direction: self.direction,
            is_clock: self.is_clock,
            capacitance: self.capacitance,
        }
    }
}

impl Port {
    /// The pin capacitance for a transition and min/max.
    pub fn capacitance(&self, rf: usize, min_max: usize) -> (r: F32)
        requires
            rf < 2,
            min_max < 2,
        ensures
            r == self.capacitance[rf as int][min_max as int],
            r == self@.capacitance[rf as int][min_max as int],
    {
        self.capacitance[rf][min_max]
    }
}

/// The timing roles the timer distinguishes.
#[derive(Debug, Clone, Copy, PartialEq, Eq, Structural)]
pub enum Role {
    Combinational,
    RegClkToQ,
    LatchEnToQ,
    LatchDtoQ,
    RegSetClr,
    Setup,
    Hold,
    Recovery,
    Removal,
    /// Pulse width, period, tristate, non-sequential checks and the like: read, never timed here.
    Other,
}

/// A timing model: a gate's delay and slew tables, or a check's constraint table.
#[derive(Debug, PartialEq)]
pub enum Model {
    Gate(GateModel),
    Check(Table),
}

/// What a timing model holds.
#[verifier::ext_equal]
pub enum ModelView {
    Gate(GateModelView),
    Check(TableView),
}

impl View for Model {
    type V = ModelView;

    open spec fn view(&self) -> ModelView {
        match self {
            Model::Gate(m) => ModelView::Gate(m@),
            Model::Check(t) => ModelView::Check(t@),
        }
    }
}

impl Clone for Model {
    fn clone(&self) -> (r: Model)
        ensures
            r@ == self@,
    {
        match self {
            Model::Gate(m) => Model::Gate(m.clone()),
            Model::Check(t) => Model::Check(t.clone()),
        }
    }
}

/// One timing arc: from and to transitions (`RISE`/`FALL`) and its model.
#[derive(Debug, PartialEq)]
pub struct Arc {
    pub from_rf: usize,
    pub to_rf: usize,
    pub model: Model,
}

/// What a timing arc holds.
#[verifier::ext_equal]
pub struct ArcView {
    pub from_rf: nat,
    pub to_rf: nat,
    pub model: ModelView,
}

impl View for Arc {
    type V = ArcView;

    open spec fn view(&self) -> ArcView {
        ArcView { from_rf: self.from_rf as nat, to_rf: self.to_rf as nat, model: self.model@ }
    }
}

impl Clone for Arc {
    fn clone(&self) -> (r: Arc)
        ensures
            r@ == self@,
    {
        Arc { from_rf: self.from_rf, to_rf: self.to_rf, model: self.model.clone() }
    }
}

pub open spec fn arc_views(v: Seq<Arc>) -> Seq<ArcView> {
    Seq::new(v.len(), |i: int| v[i]@)
}

/// One timing arc set: a timing group from one related pin to one port.
#[derive(Debug, PartialEq)]
pub struct ArcSet {
    pub from: String,
    pub to: String,
    pub role: Role,
    pub timing_type: String,
    /// `when`, as text.
    pub cond: Option<String>,
    pub arcs: Vec<Arc>,
}

/// What an arc set holds.
#[verifier::ext_equal]
pub struct ArcSetView {
    pub from: Seq<char>,
    pub to: Seq<char>,
    pub role: Role,
    pub timing_type: Seq<char>,
    pub cond: Option<Seq<char>>,
    pub arcs: Seq<ArcView>,
}

pub open spec fn text_view(s: Option<String>) -> Option<Seq<char>> {
    match s {
        Some(s) => Some(s@),
        None => None,
    }
}

impl View for ArcSet {
    type V = ArcSetView;

    open spec fn view(&self) -> ArcSetView {
        ArcSetView {
            from: self.from@,
            to: self.to@,
            role: self.role,
            timing_type: self.timing_type@,
            cond: text_view(self.cond),
            arcs: arc_views(self.arcs@),
        }
    }
}

/// A text where there is one.
pub(crate) fn copy_text(s: &Option<String>) -> (r: Option<String>)
    ensures
        text_view(r) == text_view(*s),
{
    match s {
        Some(t) => Some(t.clone()),
        None => None,
    }
}

impl Clone for ArcSet {
    fn clone(&self) -> (r: ArcSet)
        ensures
            r@ == self@,
    {
        let arcs: Vec<Arc> = self.arcs.clone();
        assert(arc_views(arcs@) =~= arc_views(self.arcs@));
        ArcSet {
            from: self.from.clone(),
            to: self.to.clone(),
            role: self.role,
            timing_type: self.timing_type.clone(),
            cond: copy_text(&self.cond),
            arcs,
        }
    }
}

pub open spec fn arc_set_views(v: Seq<ArcSet>) -> Seq<ArcSetView> {
    Seq::new(v.len(), |i: int| v[i]@)
}

pub open spec fn port_views(v: Seq<Port>) -> Seq<PortView> {
    Seq::new(v.len(), |i: int| v[i]@)
}

/// `ff` and `latch` groups: the output names, whether it is a register, the clock or enable
/// expression.
pub type SequentialView = (Seq<Seq<char>>, bool, Seq<char>);

pub open spec fn sequential_views(v: Seq<(Vec<String>, bool, String)>) -> Seq<SequentialView> {
    Seq::new(v.len(), |i: int| (names::text_views(v[i].0@), v[i].1, v[i].2@))
}

#[derive(Debug, PartialEq)]
pub struct Cell {
    pub name: String,
    /// Ports in the cell's order.
    pub ports: Vec<Port>,
    /// Timing arc sets in the order the timing groups were read.
    pub arc_sets: Vec<ArcSet>,
    /// `ff`/`latch` groups: `(output names, is_register, clock or enable expression)`.
    pub sequentials: Vec<(Vec<String>, bool, String)>,
}

/// What a cell holds.
#[verifier::ext_equal]
pub struct CellView {
    pub name: Seq<char>,
    pub ports: Seq<PortView>,
    pub arc_sets: Seq<ArcSetView>,
    pub sequentials: Seq<SequentialView>,
}

impl View for Cell {
    type V = CellView;

    open spec fn view(&self) -> CellView {
        CellView {
            name: self.name@,
            ports: port_views(self.ports@),
            arc_sets: arc_set_views(self.arc_sets@),
            sequentials: sequential_views(self.sequentials@),
        }
    }
}

impl Clone for Cell {
    fn clone(&self) -> (r: Cell)
        ensures
            r@ == self@,
    {
        let ports: Vec<Port> = self.ports.clone();
        let arc_sets: Vec<ArcSet> = self.arc_sets.clone();
        assert(port_views(ports@) =~= port_views(self.ports@));
        assert(arc_set_views(arc_sets@) =~= arc_set_views(self.arc_sets@));
        let mut sequentials: Vec<(Vec<String>, bool, String)> = Vec::new();
        let mut i: usize = 0;
        while i < self.sequentials.len()
            invariant
                i <= self.sequentials@.len(),
                sequential_views(sequentials@) == sequential_views(self.sequentials@).take(i as int),
            decreases self.sequentials@.len() - i,
        {
            let ghost done = sequential_views(sequentials@);
            let s: &(Vec<String>, bool, String) = &self.sequentials[i];
            let outputs: Vec<String> = s.0.clone();
            assert(names::text_views(outputs@) =~= names::text_views(s.0@));
            sequentials.push((outputs, s.1, s.2.clone()));
            assert(sequential_views(sequentials@) =~= done.push(sequential_views(self.sequentials@)[i as int]));
            assert(sequential_views(sequentials@) =~= sequential_views(self.sequentials@).take(i + 1));
            i = i + 1;
        }
        assert(sequential_views(sequentials@) =~= sequential_views(self.sequentials@));
        Cell { name: self.name.clone(), ports, arc_sets, sequentials }
    }
}

impl Default for Cell {
    fn default() -> (r: Cell)
        ensures
            r@.name.len() == 0,
            r@.ports.len() == 0,
            r@.arc_sets.len() == 0,
            r@.sequentials.len() == 0,
    {
        Cell { name: String::new(), ports: Vec::new(), arc_sets: Vec::new(), sequentials: Vec::new() }
    }
}

/// The first port of a name.
pub open spec fn port_named(ports: Seq<PortView>, name: Seq<char>) -> Option<PortView>
    decreases ports.len(),
{
    if ports.len() == 0 {
        None
    } else if ports[0].name == name {
        Some(ports[0])
    } else {
        port_named(ports.skip(1), name)
    }
}

impl Cell {
    pub fn port(&self, name: &str) -> (r: Option<&Port>)
        ensures
            match r {
                Some(p) => port_named(self@.ports, name@) == Some(p@),
                None => port_named(self@.ports, name@) is None,
            },
    {
        let mut i: usize = 0;
        assert(self@.ports.skip(0) =~= self@.ports);
        while i < self.ports.len()
            invariant
                i <= self.ports@.len(),
                port_named(self@.ports, name@) == port_named(self@.ports.skip(i as int), name@),
            decreases self.ports@.len() - i,
        {
            assert(self@.ports.skip(i as int).skip(1) =~= self@.ports.skip(i + 1));
            if *self.ports[i].name.as_str() == *name {
                return Some(&self.ports[i]);
            }
            i = i + 1;
        }
        None
    }
}

#[derive(Debug, PartialEq)]
pub struct Library {
    pub name: String,
    pub time_scale: F32,
    pub cap_scale: F32,
    pub default_input_pin_cap: F32,
    pub default_output_pin_cap: F32,
    pub default_bidirect_pin_cap: F32,
    /// `input_threshold_pct_*`, `output_threshold_pct_*`, `slew_lower/upper_threshold_pct_*`, each
    /// times 0.01, per `[rise, fall]` (defaults .5, .5, .2, .8); `slew_derate_from_library` (1).
    pub input_threshold: [F32; 2],
    pub output_threshold: [F32; 2],
    pub slew_lower_threshold: [F32; 2],
    pub slew_upper_threshold: [F32; 2],
    pub slew_derate: F32,
    /// `lu_table_template`s: each axis's variable and (scaled) values.
    pub templates: NameMap<Vec<Axis>>,
    pub cells: NameMap<Cell>,
}

/// The units, defaults and thresholds of a library.
#[verifier::ext_equal]
pub struct HeaderView {
    pub name: Seq<char>,
    pub time_scale: F32,
    pub cap_scale: F32,
    pub default_input_pin_cap: F32,
    pub default_output_pin_cap: F32,
    pub default_bidirect_pin_cap: F32,
    pub input_threshold: Seq<F32>,
    pub output_threshold: Seq<F32>,
    pub slew_lower_threshold: Seq<F32>,
    pub slew_upper_threshold: Seq<F32>,
    pub slew_derate: F32,
}

/// What a library holds.
#[verifier::ext_equal]
pub struct LibraryView {
    pub header: HeaderView,
    pub templates: Map<Seq<char>, Seq<AxisView>>,
    pub cells: Map<Seq<char>, CellView>,
}

pub open spec fn template_views(m: Map<Seq<char>, Vec<Axis>>) -> Map<Seq<char>, Seq<AxisView>> {
    Map::new(|k: Seq<char>| m.contains_key(k), |k: Seq<char>| table::axis_views(m[k]@))
}

pub open spec fn cell_views(m: Map<Seq<char>, Cell>) -> Map<Seq<char>, CellView> {
    Map::new(|k: Seq<char>| m.contains_key(k), |k: Seq<char>| m[k]@)
}

impl Library {
    pub open spec fn header(self) -> HeaderView {
        HeaderView {
            name: self.name@,
            time_scale: self.time_scale,
            cap_scale: self.cap_scale,
            default_input_pin_cap: self.default_input_pin_cap,
            default_output_pin_cap: self.default_output_pin_cap,
            default_bidirect_pin_cap: self.default_bidirect_pin_cap,
            input_threshold: self.input_threshold@,
            output_threshold: self.output_threshold@,
            slew_lower_threshold: self.slew_lower_threshold@,
            slew_upper_threshold: self.slew_upper_threshold@,
            slew_derate: self.slew_derate,
        }
    }
}

impl View for Library {
    type V = LibraryView;

    open spec fn view(&self) -> LibraryView {
        LibraryView {
            header: self.header(),
            templates: template_views(self.templates@),
            cells: cell_views(self.cells@),
        }
    }
}

impl Clone for Library {
    fn clone(&self) -> (r: Library)
        ensures
            r@ == self@,
    {
        let templates: NameMap<Vec<Axis>> = self.templates.clone();
        let cells: NameMap<Cell> = self.cells.clone();
        assert(template_views(templates@) =~= template_views(self.templates@)) by {
            assert(templates@.dom() == self.templates@.dom());
            assert forall|k: Seq<char>| templates@.contains_key(k) implies table::axis_views(
                (#[trigger] templates@[k])@,
            ) == table::axis_views(self.templates@[k]@) by {
                assert(cloned(self.templates@[k], templates@[k]));
                assert(table::axis_views(templates@[k]@) =~= table::axis_views(self.templates@[k]@));
            }
        }
        assert(cell_views(cells@) =~= cell_views(self.cells@)) by {
            assert(cells@.dom() == self.cells@.dom());
            assert forall|k: Seq<char>| cells@.contains_key(k) implies (#[trigger] cells@[k])@
                == self.cells@[k]@ by {
                assert(cloned(self.cells@[k], cells@[k]));
            }
        }
        Library {
            name: self.name.clone(),
            time_scale: self.time_scale,
            cap_scale: self.cap_scale,
            default_input_pin_cap: self.default_input_pin_cap,
            default_output_pin_cap: self.default_output_pin_cap,
            default_bidirect_pin_cap: self.default_bidirect_pin_cap,
            input_threshold: self.input_threshold,
            output_threshold: self.output_threshold,
            slew_lower_threshold: self.slew_lower_threshold,
            slew_upper_threshold: self.slew_upper_threshold,
            slew_derate: self.slew_derate,
            templates,
            cells,
        }
    }
}

impl Default for Library {
    fn default() -> (r: Library)
        ensures
            r@.header == (HeaderView {
                name: Seq::empty(),
                time_scale: F32(0),
                cap_scale: F32(0),
                default_input_pin_cap: F32(0),
                default_output_pin_cap: F32(0),
                default_bidirect_pin_cap: F32(0),
                input_threshold: seq![F32(0), F32(0)],
                output_threshold: seq![F32(0), F32(0)],
                slew_lower_threshold: seq![F32(0), F32(0)],
                slew_upper_threshold: seq![F32(0), F32(0)],
                slew_derate: F32(0),
            }),
            r@.templates == Map::<Seq<char>, Seq<AxisView>>::empty(),
            r@.cells == Map::<Seq<char>, CellView>::empty(),
    {
        let zero: F32 = F32(0);
        let r: Library = Library {
            name: String::new(),
            time_scale: zero,
            cap_scale: zero,
            default_input_pin_cap: zero,
            default_output_pin_cap: zero,
            default_bidirect_pin_cap: zero,
            input_threshold: [zero, zero],
            output_threshold: [zero, zero],
            slew_lower_threshold: [zero, zero],
            slew_upper_threshold: [zero, zero],
            slew_derate: zero,
            templates: NameMap::new(),
            cells: NameMap::new(),
        };
        assert(r@.header.name =~= Seq::<char>::empty());
        assert(r@.templates =~= Map::<Seq<char>, Seq<AxisView>>::empty());
        assert(r@.cells =~= Map::<Seq<char>, CellView>::empty());
        assert(r@.header.input_threshold =~= seq![zero, zero]);
        assert(r@.header.output_threshold =~= seq![zero, zero]);
        assert(r@.header.slew_lower_threshold =~= seq![zero, zero]);
        assert(r@.header.slew_upper_threshold =~= seq![zero, zero]);
        r
    }
}

/// The end of the leading digits.
pub open spec fn multiplier_end(units: Seq<char>) -> int {
    number::digits_end(units, 0)
}

/// The multiplier of a unit: 1, 10 or 100; 1 where it is another number or there is nothing but
/// digits.
pub open spec fn unit_multiplier(units: Seq<char>) -> F32 {
    let end = multiplier_end(units);
    let digits = units.take(end);
    if end == units.len() {
        F32(ONE)
    } else if digits == "10"@ {
        F32(TEN)
    } else if digits == "100"@ {
        F32(HUNDRED)
    } else {
        F32(ONE)
    }
}

/// What follows the multiplier.
pub open spec fn unit_tail(units: Seq<char>) -> Seq<char> {
    let end = multiplier_end(units);
    if end == units.len() {
        units
    } else {
        units.skip(end)
    }
}

/// The scale of a prefix letter.
pub open spec fn prefix_scale(c: char) -> F32 {
    let c = text::lower(c);
    if c == 'k' {
        F32(KILO)
    } else if c == 'm' {
        F32(MILLI)
    } else if c == 'u' {
        F32(MICRO)
    } else if c == 'n' {
        F32(NANO)
    } else if c == 'p' {
        F32(PICO)
    } else if c == 'f' {
        F32(FEMTO)
    } else {
        F32(ONE)
    }
}

/// The scale of a unit text for a suffix.
pub open spec fn scale_of(units: Seq<char>, suffix: Seq<char>) -> F32 {
    let tail = unit_tail(units);
    let prefix = if tail.len() == suffix.len() + 1 && text::same_letters(tail.skip(1), suffix) {
        prefix_scale(tail[0])
    } else {
        F32(ONE)
    };
    prefix * unit_multiplier(units)
}

/// A unit's scale. An unknown multiplier counts as 1, as does an unknown scale letter or suffix:
/// the result is never refused.
pub fn unit_scale(units: &str, suffix: &str) -> (r: F32)
    ensures
        r == scale_of(units@, suffix@),
{
    let c: Vec<char> = text::to_chars(units);
    let mut end: usize = 0;
    while end < c.len() && number::is_digit(c[end])
        invariant
            c@ == units@,
            end <= c@.len(),
            number::digits_end(units@, end as int) == multiplier_end(units@),
        decreases c@.len() - end,
    {
        end = end + 1;
    }
    let mut mult: F32 = F32(ONE);
    let mut start: usize = 0;
    if end < c.len() {
        let digits: String = text::slice(&c, 0, end);
        assert(digits@ =~= units@.take(end as int));
        proof {
            reveal_strlit("10");
            reveal_strlit("100");
        }
        if *digits.as_str() == *"10" {
            mult = F32(TEN);
        } else if *digits.as_str() == *"100" {
            mult = F32(HUNDRED);
        }
        start = end;
    }
    let ghost tail = unit_tail(units@);
    assert(tail =~= c@.subrange(start as int, c@.len() as int));
    let mut scale_mult: F32 = F32(ONE);
    if start < c.len() {
        let rest: String = text::slice(&c, start + 1, c.len());
        assert(rest@ =~= tail.skip(1));
        if text::equal_ignoring_case(rest.as_str(), suffix) {
            let p: char = text::to_lower(c[start]);
            scale_mult = if p == 'k' {
                F32(KILO)
            } else if p == 'm' {
                F32(MILLI)
            } else if p == 'u' {
                F32(MICRO)
            } else if p == 'n' {
                F32(NANO)
            } else if p == 'p' {
                F32(PICO)
            } else if p == 'f' {
                F32(FEMTO)
            } else {
                F32(ONE)
            };
        }
    }
    scale_mult * mult
}

/// The numbers of one value.
pub open spec fn value_floats(v: ValueView, scale: F32) -> Seq<F32> {
    match v {
        ValueView::Float(f) => seq![f * scale],
        ValueView::Str(s) => word_floats(names::words(WordKind::ListItem, s, 0), scale),
    }
}

/// The numbers among words, times a scale.
pub open spec fn word_floats(words: Seq<Seq<char>>, scale: F32) -> Seq<F32>
    decreases words.len(),
{
    if words.len() == 0 {
        Seq::empty()
    } else {
        let before = word_floats(words.drop_last(), scale);
        match number::number(words.last()) {
            Some(f) => before.push(f * scale),
            None => before,
        }
    }
}

/// The numbers of values, quoted lists among them, times a scale.
pub open spec fn floats_of(values: Seq<ValueView>, scale: F32) -> Seq<F32>
    decreases values.len(),
{
    if values.len() == 0 {
        Seq::empty()
    } else {
        floats_of(values.drop_last(), scale) + value_floats(values.last(), scale)
    }
}

/// A quoted list or plain values as floats, each times `scale`.
fn float_seq(values: &Vec<Value>, scale: F32) -> (r: Vec<F32>)
    ensures
        r@ == floats_of(liberty_parse::value_views(values@), scale),
{
    let mut out: Vec<F32> = Vec::new();
    let mut i: usize = 0;
    let ghost views = liberty_parse::value_views(values@);
    assert(views.take(0) =~= Seq::<ValueView>::empty());
    while i < values.len()
        invariant
            i <= values@.len(),
            views == liberty_parse::value_views(values@),
            out@ == floats_of(views.take(i as int), scale),
        decreases values@.len() - i,
    {
        assert(views.take(i + 1).drop_last() =~= views.take(i as int));
        let ghost done = out@;
        match &values[i] {
            Value::Float(f) => {
                out.push(*f * scale);
                assert(out@ =~= done + seq![*f * scale]);
            },
            Value::Str(s) => {
                let words: Vec<String> = names::split_words(WordKind::ListItem, s.as_str());
                let ghost w = names::text_views(words@);
                let mut j: usize = 0;
                assert(w.take(0) =~= Seq::<Seq<char>>::empty());
                assert(done + Seq::<F32>::empty() =~= done);
                while j < words.len()
                    invariant
                        j <= words@.len(),
                        w == names::text_views(words@),
                        out@ == done + word_floats(w.take(j as int), scale),
                    decreases words@.len() - j,
                {
                    assert(w.take(j + 1).drop_last() =~= w.take(j as int));
                    let ghost so_far = word_floats(w.take(j as int), scale);
                    match number::parse_number(words[j].as_str()) {
                        Some(f) => {
                            out.push(f * scale);
                            assert(out@ =~= done + so_far.push(f * scale));
                        },
                        None => {},
                    }
                    j = j + 1;
                }
                assert(w.take(j as int) =~= w);
            },
        }
        i = i + 1;
    }
    assert(views.take(i as int) =~= views);
    out
}

/// The identifiers of an expression, in order.
pub fn identifiers(expr: &str) -> (r: Vec<String>)
    ensures
        names::text_views(r@) == names::words(WordKind::Identifier, expr@, 0),
{
    names::split_words(WordKind::Identifier, expr)
}

impl HeaderView {
    /// The unit of an axis.
    pub open spec fn unit(self, var: AxisVar) -> F32 {
        if var.capacitive() {
            self.cap_scale
        } else {
            self.time_scale
        }
    }

    pub open spec fn default_cap(self, dir: Direction) -> F32 {
        match dir {
            Direction::Input => self.default_input_pin_cap,
            Direction::Output => self.default_output_pin_cap,
            Direction::Tristate => self.default_output_pin_cap,
            Direction::Bidirect => self.default_bidirect_pin_cap,
            _ => F32(0),
        }
    }
}

pub open spec fn times(values: Seq<F32>, scale: F32) -> Seq<F32> {
    Seq::new(values.len(), |i: int| values[i] * scale)
}

/// A name and a number, as in `index_1`.
pub open spec fn numbered(name: Seq<char>, k: nat) -> Seq<char> {
    name + text::decimal(k)
}

/// An axis with the values given, in its unit.
pub open spec fn axis_of(h: HeaderView, var: AxisVar, values: Seq<ValueView>) -> AxisView {
    AxisView { var, values: times(floats_of(values, F32(ONE)), h.unit(var)) }
}

/// The axes of a template from axis `k` on, behind `done`; at most three, up to the first without
/// a variable.
pub open spec fn template_axes(h: HeaderView, tg: GroupView, k: nat, done: Seq<AxisView>) -> Seq<AxisView>
    decreases 4 - k,
{
    if k > 3 {
        done
    } else {
        match tg.attr_text(numbered("variable_"@, k)) {
            None => done,
            Some(var) => template_axes(
                h,
                tg,
                k + 1,
                done.push(
                    axis_of(
                        h,
                        AxisVar::named(var),
                        match tg.complex_attr(numbered("index_"@, k)) {
                            Some(v) => v,
                            None => Seq::empty(),
                        },
                    ),
                ),
            ),
        }
    }
}

/// The templates of template groups, the last of a name kept; those without a name are left out.
pub open spec fn templates_of(h: HeaderView, groups: Seq<GroupView>) -> Map<Seq<char>, Seq<AxisView>>
    decreases groups.len(),
{
    if groups.len() == 0 {
        Map::empty()
    } else {
        let before = templates_of(h, groups.drop_last());
        match groups.last().name() {
            Some(n) => before.insert(n, template_axes(h, groups.last(), 1, Seq::empty())),
            None => before,
        }
    }
}

/// A template's axis, or that of the table's own `index_N`.
pub open spec fn table_axis(h: HeaderView, template: Seq<AxisView>, g: GroupView, k: int) -> AxisView {
    match g.complex_attr(numbered("index_"@, (k + 1) as nat)) {
        Some(v) => axis_of(h, template[k].var, v),
        None => template[k],
    }
}

/// The template a table names; `scalar` has no axes.
pub open spec fn template_of(templates: Map<Seq<char>, Seq<AxisView>>, name: Seq<char>) -> Option<Seq<AxisView>> {
    if name == "scalar"@ {
        Some(Seq::empty())
    } else if templates.contains_key(name) {
        Some(templates[name])
    } else {
        None
    }
}

pub open spec fn name_or_empty(g: GroupView) -> Seq<char> {
    match g.name() {
        Some(n) => n,
        None => Seq::empty(),
    }
}

/// The number of values a table with these axes has: the product of their sizes, at least 1.
pub open spec fn cell_count(axes: Seq<AxisView>) -> nat {
    let n = TableView { axes, values: Seq::empty() }.cells_from(0);
    if n == 0 {
        1
    } else {
        n
    }
}

/// The table of a group, its values times `scale`; or why there is none.
pub open spec fn table_of(
    h: HeaderView,
    templates: Map<Seq<char>, Seq<AxisView>>,
    g: GroupView,
    scale: F32,
) -> Result<TableView, Seq<char>> {
    let name = name_or_empty(g);
    match template_of(templates, name) {
        None => Err("table template "@ + name + " not found"@),
        Some(template) => {
            let axes = Seq::new(template.len(), |k: int| table_axis(h, template, g, k));
            match g.complex_attr("values"@) {
                None => Err("table missing values"@),
                Some(v) => {
                    let values = floats_of(v, scale);
                    let want = cell_count(axes);
                    if want > u64::MAX {
                        Err("table axes are too large"@)
                    } else if values.len() != want {
                        Err(
                            "table has "@ + text::decimal(values.len()) + " values, its axes "@
                                + text::decimal(want),
                        )
                    } else {
                        Ok(TableView { axes, values })
                    }
                },
            }
        },
    }
}

/// The table of the first group of a kind.
pub open spec fn first_table(
    h: HeaderView,
    templates: Map<Seq<char>, Seq<AxisView>>,
    tg: GroupView,
    kind: Seq<char>,
) -> Result<Option<TableView>, Seq<char>> {
    let groups = tg.groups_of(kind);
    if groups.len() == 0 {
        Ok(None)
    } else {
        match table_of(h, templates, groups[0], h.time_scale) {
            Ok(t) => Ok(Some(t)),
            Err(e) => Err(e),
        }
    }
}

/// The model of a timing group for the transition `word`: its constraint table where it has one,
/// else its delay and slew tables.
pub open spec fn model_of(
    h: HeaderView,
    templates: Map<Seq<char>, Seq<AxisView>>,
    tg: GroupView,
    word: Seq<char>,
) -> Result<Option<ModelView>, Seq<char>> {
    match first_table(h, templates, tg, "cell_"@ + word) {
        Err(e) => Err(e),
        Ok(delay) => match first_table(h, templates, tg, word + "_transition"@) {
            Err(e) => Err(e),
            Ok(slew) => match first_table(h, templates, tg, word + "_constraint"@) {
                Err(e) => Err(e),
                Ok(Some(t)) => Ok(Some(ModelView::Check(t))),
                Ok(None) => if delay is None && slew is None {
                    Ok(None)
                } else {
                    Ok(Some(ModelView::Gate(GateModelView { delay, slew })))
                },
            },
        },
    }
}

fn numbered_text(name: &str, k: u64) -> (r: String)
    ensures
        r@ == numbered(name@, k as nat),
{
    text::join(name, text::decimal_text(k).as_str())
}

fn multiply(values: Vec<F32>, scale: F32) -> (r: Vec<F32>)
    ensures
        r@ == times(values@, scale),
{
    let mut out: Vec<F32> = Vec::new();
    let mut i: usize = 0;
    while i < values.len()
        invariant
            i <= values@.len(),
            out@ == times(values@, scale).take(i as int),
        decreases values@.len() - i,
    {
        out.push(values[i] * scale);
        assert(times(values@, scale).take(i + 1) =~= times(values@, scale).take(i as int).push(
            values@[i as int] * scale,
        ));
        i = i + 1;
    }
    assert(times(values@, scale).take(i as int) =~= times(values@, scale));
    out
}

/// The product of the axes' sizes, where it is small enough to count.
fn count_cells(axes: &Vec<Axis>) -> (r: Option<u64>)
    ensures
        match r {
            Some(n) => n == cell_count(table::axis_views(axes@)),
            None => cell_count(table::axis_views(axes@)) > u64::MAX,
        },
{
    let ghost t = TableView { axes: table::axis_views(axes@), values: Seq::empty() };
    let mut i: usize = 0;
    while i < axes.len()
        invariant
            i <= axes@.len(),
            t == (TableView { axes: table::axis_views(axes@), values: Seq::empty() }),
            forall|j: int| 0 <= j < i ==> (#[trigger] t.axes[j]).values.len() > 0,
        decreases axes@.len() - i,
    {
        if axes[i].values.len() == 0 {
            proof {
                lemma_empty_axis(t, 0, i as int);
            }
            return Some(1);
        }
        i = i + 1;
    }
    let mut n: u64 = 1;
    proof {
        lemma_cells_positive(t, i as int);
    }
    while i > 0
        invariant
            i <= axes@.len(),
            t == (TableView { axes: table::axis_views(axes@), values: Seq::empty() }),
            forall|j: int| 0 <= j < t.axes.len() ==> (#[trigger] t.axes[j]).values.len() > 0,
            n == t.cells_from(i as int),
            n > 0,
        decreases i,
    {
        i = i - 1;
        let size: u64 = axes[i].values.len() as u64;
        proof {
            assert(t.axes[i as int].values.len() == size);
            assert(size * n == t.cells_from(i as int));
            lemma_cells_positive(t, i as int);
        }
        match size.checked_mul(n) {
            Some(m) => {
                n = m;
            },
            None => {
                proof {
                    lemma_cells_grow(t, 0, i as int);
                }
                return None;
            },
        }
    }
    Some(n)
}

proof fn lemma_empty_axis(t: TableView, k: int, i: int)
    requires
        0 <= k <= i < t.axes.len(),
        t.axes[i].values.len() == 0,
    ensures
        t.cells_from(k) == 0,
    decreases i - k,
{
    let rest = t.cells_from(k + 1);
    let size = t.axes[k].values.len();
    if k < i {
        lemma_empty_axis(t, k + 1, i);
        assert(size * rest == 0) by (nonlinear_arith)
            requires
                rest == 0,
        ;
    } else {
        assert(size * rest == 0) by (nonlinear_arith)
            requires
                size == 0,
        ;
    }
}

proof fn lemma_cells_positive(t: TableView, k: int)
    requires
        0 <= k <= t.axes.len(),
        forall|j: int| 0 <= j < t.axes.len() ==> (#[trigger] t.axes[j]).values.len() > 0,
    ensures
        t.cells_from(k) > 0,
    decreases t.axes.len() - k,
{
    if k < t.axes.len() {
        lemma_cells_positive(t, k + 1);
        let rest = t.cells_from(k + 1);
        let size = t.axes[k].values.len();
        assert(size * rest > 0) by (nonlinear_arith)
            requires
                size > 0,
                rest > 0,
        ;
    }
}

proof fn lemma_cells_grow(t: TableView, k: int, i: int)
    requires
        0 <= k <= i <= t.axes.len(),
        forall|j: int| 0 <= j < t.axes.len() ==> (#[trigger] t.axes[j]).values.len() > 0,
    ensures
        t.cells_from(k) >= t.cells_from(i),
    decreases i - k,
{
    if k < i {
        lemma_cells_grow(t, k + 1, i);
        lemma_cells_positive(t, k + 1);
        let rest = t.cells_from(k + 1);
        let size = t.axes[k].values.len();
        assert(t.axes[k].values.len() > 0);
        assert(size * rest >= rest) by (nonlinear_arith)
            requires
                size > 0,
        ;
    }
}

impl Library {
    fn unit(&self, var: AxisVar) -> (r: F32)
        ensures
            r == self.header().unit(var),
    {
        if var.is_capacitance() {
            self.cap_scale
        } else {
            self.time_scale
        }
    }

    fn read_template(&self, tg: &Group) -> (r: Vec<Axis>)
        ensures
            table::axis_views(r@) == template_axes(self.header(), tg@, 1, Seq::empty()),
    {
        let mut axes: Vec<Axis> = Vec::new();
        let mut k: u64 = 1;
        assert(table::axis_views(axes@) =~= Seq::<AxisView>::empty());
        while k <= 3
            invariant
                1 <= k <= 4,
                template_axes(self.header(), tg@, k as nat, table::axis_views(axes@)) == template_axes(
                    self.header(),
                    tg@,
                    1,
                    Seq::empty(),
                ),
            decreases 4 - k,
        {
            let var: AxisVar = match tg.attr_text(numbered_text("variable_", k).as_str()) {
                Some(v) => AxisVar::parse(v.as_str()),
                None => {
                    return axes;
                },
            };
            let raw: Vec<F32> = match tg.complex_attr(numbered_text("index_", k).as_str()) {
                Some(v) => float_seq(v, F32(ONE)),
                None => Vec::new(),
            };
            let ghost done = table::axis_views(axes@);
            let axis: Axis = Axis { var, values: multiply(raw, self.unit(var)) };
            let ghost next = axis@;
            axes.push(axis);
            assert(table::axis_views(axes@) =~= done.push(next));
            k = k + 1;
        }
        axes
    }

    fn table_axes(&self, template: &Vec<Axis>, g: &Group) -> (r: Vec<Axis>)
        ensures
            table::axis_views(r@) == Seq::new(
                template@.len(),
                |k: int| table_axis(self.header(), table::axis_views(template@), g@, k),
            ),
    {
        let mut axes: Vec<Axis> = Vec::new();
        let mut k: usize = 0;
        while k < template.len()
            invariant
                k <= template@.len(),
                axes@.len() == k,
                forall|j: int|
                    0 <= j < k ==> (#[trigger] axes@[j])@ == table_axis(
                        self.header(),
                        table::axis_views(template@),
                        g@,
                        j,
                    ),
            decreases template@.len() - k,
        {
            let axis: Axis = match g.complex_attr(numbered_text("index_", k as u64 + 1).as_str()) {
                Some(v) => Axis {
                    var: template[k].var,
                    values: multiply(float_seq(v, F32(ONE)), self.unit(template[k].var)),
                },
                None => template[k].clone(),
            };
            axes.push(axis);
            k = k + 1;
        }
        assert(table::axis_views(axes@) =~= Seq::new(
            template@.len(),
            |k: int| table_axis(self.header(), table::axis_views(template@), g@, k),
        ));
        axes
    }

    /// A table: the template's axes, each overridden by the table's own `index_N` (scaled by the
    /// axis variable's unit); values row by row, times `scale`.
    fn read_table(&self, g: &Group, scale: F32) -> (r: Result<Table, String>)
        ensures
            match r {
                Ok(t) => table_of(self.header(), self@.templates, g@, scale) == Ok::<TableView, Seq<char>>(t@),
                Err(e) => table_of(self.header(), self@.templates, g@, scale) == Err::<TableView, Seq<char>>(e@),
            },
    {
        let tmpl: String = match g.name() {
            Some(n) => n,
            None => String::new(),
        };
        assert(tmpl@ =~= name_or_empty(g@));
        let none: Vec<Axis> = Vec::new();
        assert(table::axis_views(none@) =~= Seq::<AxisView>::empty());
        let template: &Vec<Axis> = if *tmpl.as_str() == *"scalar" {
            &none
        } else {
            match self.templates.get(tmpl.as_str()) {
                Some(t) => t,
                None => {
                    let mut e: String = text::join("table template ", tmpl.as_str());
                    e.append(" not found");
                    return Err(e);
                },
            }
        };
        let axes: Vec<Axis> = self.table_axes(template, g);
        let values: Vec<F32> = match g.complex_attr("values") {
            Some(v) => float_seq(v, scale),
            None => {
                return Err("table missing values".to_owned());
            },
        };
        let want: u64 = match count_cells(&axes) {
            Some(n) => n,
            None => {
                return Err("table axes are too large".to_owned());
            },
        };
        if values.len() as u64 != want {
            let mut e: String = text::join("table has ", text::decimal_text(values.len() as u64).as_str());
            e.append(" values, its axes ");
            e.append(text::decimal_text(want).as_str());
            return Err(e);
        }
        Ok(Table { axes, values })
    }

    fn read_first_table(&self, tg: &Group, kind: &str) -> (r: Result<Option<Table>, String>)
        ensures
            match r {
                Ok(t) => first_table(self.header(), self@.templates, tg@, kind@) == Ok::<
                    Option<TableView>,
                    Seq<char>,
                >(table::table_view(t)),
                Err(e) => first_table(self.header(), self@.templates, tg@, kind@) == Err::<
                    Option<TableView>,
                    Seq<char>,
                >(e@),
            },
    {
        let groups: Vec<&Group> = tg.groups_of(kind);
        if groups.len() == 0 {
            return Ok(None);
        }
        match self.read_table(groups[0], self.time_scale) {
            Ok(t) => Ok(Some(t)),
            Err(e) => Err(e),
        }
    }

    fn read_model(&self, tg: &Group, word: &str) -> (r: Result<Option<Model>, String>)
        ensures
            match r {
                Ok(m) => model_of(self.header(), self@.templates, tg@, word@) == Ok::<
                    Option<ModelView>,
                    Seq<char>,
                >(model_view(m)),
                Err(e) => model_of(self.header(), self@.templates, tg@, word@) == Err::<
                    Option<ModelView>,
                    Seq<char>,
                >(e@),
            },
    {
        let delay: Option<Table> = self.read_first_table(tg, text::join("cell_", word).as_str())?;
        let slew: Option<Table> = self.read_first_table(tg, text::join(word, "_transition").as_str())?;
        match self.read_first_table(tg, text::join(word, "_constraint").as_str())? {
            Some(t) => Ok(Some(Model::Check(t))),
            None => {
                if delay.is_some() || slew.is_some() {
                    Ok(Some(Model::Gate(GateModel { delay, slew })))
                } else {
                    Ok(None)
                }
            },
        }
    }
}

pub open spec fn model_view(m: Option<Model>) -> Option<ModelView> {
    match m {
        Some(m) => Some(m@),
        None => None,
    }
}

/// An `ff` or `latch` group as its timing arcs read it: outputs, whether it is a register, the
/// clock or enable expression, and the pins of a latch's data.
#[verifier::ext_equal]
pub struct StateView {
    pub outputs: Seq<Seq<char>>,
    pub is_register: bool,
    pub clock: Seq<char>,
    pub data: Seq<Seq<char>>,
}

pub open spec fn text_or_empty(t: Option<Seq<char>>) -> Seq<char> {
    match t {
        Some(s) => s,
        None => Seq::empty(),
    }
}

pub open spec fn identifiers_of(expr: Seq<char>) -> Seq<Seq<char>> {
    names::words(WordKind::Identifier, expr, 0)
}

pub open spec fn value_texts(v: Seq<ValueView>) -> Seq<Seq<char>> {
    Seq::new(v.len(), |i: int| v[i].text())
}

pub open spec fn state_of(sg: GroupView, is_register: bool) -> StateView {
    StateView {
        outputs: value_texts(sg.params),
        is_register,
        clock: text_or_empty(
            sg.attr_text(
                if is_register {
                    "clocked_on"@
                } else {
                    "enable"@
                },
            ),
        ),
        data: identifiers_of(text_or_empty(sg.attr_text("data_in"@))),
    }
}

/// The `ff` groups, then the `latch` groups.
pub open spec fn states_of(cg: GroupView) -> Seq<StateView> {
    let ff = cg.groups_of("ff"@);
    let latch = cg.groups_of("latch"@);
    Seq::new(ff.len(), |i: int| state_of(ff[i], true)) + Seq::new(
        latch.len(),
        |i: int| state_of(latch[i], false),
    )
}

/// Some name is in both.
pub open spec fn share_name(a: Seq<Seq<char>>, b: Seq<Seq<char>>) -> bool {
    exists|i: int| 0 <= i < a.len() && b.contains(#[trigger] a[i])
}

/// The first state with an output among the names.
pub open spec fn state_with_output(states: Seq<StateView>, ids: Seq<Seq<char>>) -> Option<StateView>
    decreases states.len(),
{
    if states.len() == 0 {
        None
    } else if share_name(states[0].outputs, ids) {
        Some(states[0])
    } else {
        state_with_output(states.skip(1), ids)
    }
}

/// A timing group to one port: what its arc sets are made from.
#[verifier::ext_equal]
pub struct TimingView {
    pub cell: Seq<char>,
    pub to: Seq<char>,
    pub timing_type: Seq<char>,
    pub sense: Option<Seq<char>>,
    pub cond: Option<Seq<char>>,
    pub models: Seq<Option<ModelView>>,
    pub state: Option<StateView>,
}

impl TimingView {
    /// The arcs between pairs of transitions, for those whose target transition has a model.
    pub open spec fn arcs(self, pairs: Seq<(nat, nat)>) -> Seq<ArcView>
        decreases pairs.len(),
    {
        if pairs.len() == 0 {
            Seq::empty()
        } else {
            let before = self.arcs(pairs.drop_last());
            let (from_rf, to_rf) = pairs.last();
            match self.models[to_rf as int] {
                Some(model) => before.push(ArcView { from_rf, to_rf, model }),
                None => before,
            }
        }
    }

    pub open spec fn arc_set(self, from: Seq<char>, role: Role, pairs: Seq<(nat, nat)>) -> ArcSetView {
        ArcSetView {
            from,
            to: self.to,
            role,
            timing_type: self.timing_type,
            cond: self.cond,
            arcs: self.arcs(pairs),
        }
    }

    /// Arcs from one transition to both.
    pub open spec fn from_transition(self, from: Seq<char>, from_rf: nat, role: Role) -> ArcSetView {
        self.arc_set(from, role, seq![(from_rf, 0), (from_rf, 1)])
    }

    /// `from` is in the state's clock or enable expression.
    pub open spec fn from_clock(self, from: Seq<char>) -> bool {
        self.state matches Some(s) && identifiers_of(s.clock).contains(from)
    }

    /// `from` is a data pin of a latch that the port's function names.
    pub open spec fn from_latch_data(self, from: Seq<char>) -> bool {
        self.state matches Some(s) && !s.is_register && s.data.contains(from)
    }

    /// The transition pairs of a combinational group by its sense.
    pub open spec fn sense_pairs(self) -> Option<Seq<(nat, nat)>> {
        let rise = self.timing_type != "combinational_fall"@;
        let fall = self.timing_type != "combinational_rise"@;
        let none = Seq::<(nat, nat)>::empty();
        match self.sense {
            None => None,
            Some(s) => if s == "positive_unate"@ {
                Some(
                    (if rise {
                        seq![(0nat, 0nat)]
                    } else {
                        none
                    }) + (if fall {
                        seq![(1nat, 1nat)]
                    } else {
                        none
                    }),
                )
            } else if s == "negative_unate"@ {
                Some(
                    (if fall {
                        seq![(0nat, 1nat)]
                    } else {
                        none
                    }) + (if rise {
                        seq![(1nat, 0nat)]
                    } else {
                        none
                    }),
                )
            } else if s == "non_unate"@ {
                Some(
                    (if fall {
                        seq![(1nat, 1nat), (0nat, 1nat)]
                    } else {
                        none
                    }) + (if rise {
                        seq![(0nat, 0nat), (1nat, 0nat)]
                    } else {
                        none
                    }),
                )
            } else {
                None
            },
        }
    }

    pub open spec fn is_combinational(self) -> bool {
        self.timing_type == "combinational"@ || self.timing_type == "combinational_rise"@ || self.timing_type
            == "combinational_fall"@
    }

    /// The role and from transition of a check.
    pub open spec fn check(self) -> Option<(Role, nat)> {
        let t = self.timing_type;
        if t == "setup_rising"@ {
            Some((Role::Setup, 0nat))
        } else if t == "setup_falling"@ {
            Some((Role::Setup, 1nat))
        } else if t == "hold_rising"@ {
            Some((Role::Hold, 0nat))
        } else if t == "hold_falling"@ {
            Some((Role::Hold, 1nat))
        } else if t == "recovery_rising"@ {
            Some((Role::Recovery, 0nat))
        } else if t == "recovery_falling"@ {
            Some((Role::Recovery, 1nat))
        } else if t == "removal_rising"@ {
            Some((Role::Removal, 0nat))
        } else if t == "removal_falling"@ {
            Some((Role::Removal, 1nat))
        } else {
            None
        }
    }

    /// The transition pairs of a preset or clear to `to_rf` by its sense.
    pub open spec fn set_clear_pairs(self, to_rf: nat) -> Seq<(nat, nat)> {
        let opposite = (1 - to_rf) as nat;
        if self.sense == Some("positive_unate"@) {
            seq![(to_rf, to_rf)]
        } else if self.sense == Some("negative_unate"@) {
            seq![(opposite, to_rf)]
        } else {
            seq![(to_rf, to_rf), (opposite, to_rf)]
        }
    }

    /// The arc set from one related pin; none where a preset or clear has no model; or why the
    /// group is refused.
    pub open spec fn set_from(self, from: Seq<char>) -> Result<Option<ArcSetView>, Seq<char>> {
        let t = self.timing_type;
        if t == "combinational"@ && self.from_clock(from) {
            Err(
                "cell "@ + self.cell + ": a register timing group without timing_type (from "@ + from
                    + ") is not modelled"@,
            )
        } else if self.is_combinational() {
            match self.sense_pairs() {
                None => Err(
                    "cell "@ + self.cell + ": a combinational arc "@ + from + " -> "@ + self.to
                        + " without timing_sense is not modelled"@,
                ),
                Some(pairs) => Ok(
                    Some(
                        self.arc_set(
                            from,
                            if self.from_latch_data(from) {
                                Role::LatchDtoQ
                            } else {
                                Role::Combinational
                            },
                            pairs,
                        ),
                    ),
                ),
            }
        } else if t == "rising_edge"@ || t == "falling_edge"@ {
            let latch = self.state matches Some(s) && !s.is_register;
            Ok(
                Some(
                    self.from_transition(
                        from,
                        if t == "rising_edge"@ {
                            0
                        } else {
                            1
                        },
                        if latch && self.from_clock(from) {
                            Role::LatchEnToQ
                        } else {
                            Role::RegClkToQ
                        },
                    ),
                ),
            )
        } else if let Some((role, from_rf)) = self.check() {
            Ok(Some(self.from_transition(from, from_rf, role)))
        } else if t == "preset"@ || t == "clear"@ {
            let to_rf: nat = if t == "preset"@ {
                0
            } else {
                1
            };
            if self.models[to_rf as int] is None {
                Ok(None)
            } else {
                Ok(Some(self.arc_set(from, Role::RegSetClr, self.set_clear_pairs(to_rf))))
            }
        } else {
            Ok(Some(self.arc_set(from, Role::Other, Seq::empty())))
        }
    }

    /// The arc sets from related pins, behind `done`.
    pub open spec fn sets(self, related: Seq<Seq<char>>, done: Seq<ArcSetView>) -> Result<
        Seq<ArcSetView>,
        Seq<char>,
    >
        decreases related.len(),
    {
        if related.len() == 0 {
            Ok(done)
        } else {
            match self.set_from(related[0]) {
                Err(e) => Err(e),
                Ok(None) => self.sets(related.skip(1), done),
                Ok(Some(s)) => self.sets(related.skip(1), done.push(s)),
            }
        }
    }
}

/// What a cell's timing groups are read with.
#[verifier::ext_equal]
pub struct CellContext {
    pub header: HeaderView,
    pub templates: Map<Seq<char>, Seq<AxisView>>,
    pub cell: Seq<char>,
    pub states: Seq<StateView>,
}

impl CellContext {
    /// The arc sets of one timing group to port `to`: its models per transition, its role and arcs
    /// by `timing_type` and `timing_sense`, one arc set per related pin.
    pub open spec fn timing_sets(self, to: Seq<char>, function: Option<Seq<char>>, tg: GroupView) -> Result<
        Seq<ArcSetView>,
        Seq<char>,
    > {
        match model_of(self.header, self.templates, tg, "rise"@) {
            Err(e) => Err(e),
            Ok(rise) => match model_of(self.header, self.templates, tg, "fall"@) {
                Err(e) => Err(e),
                Ok(fall) => TimingView {
                    cell: self.cell,
                    to,
                    timing_type: match tg.attr_text("timing_type"@) {
                        Some(t) => t,
                        None => "combinational"@,
                    },
                    sense: tg.attr_text("timing_sense"@),
                    cond: tg.attr_text("when"@),
                    models: seq![rise, fall],
                    state: match function {
                        Some(f) => state_with_output(self.states, identifiers_of(f)),
                        None => None,
                    },
                }.sets(
                    names::words(WordKind::Solid, text_or_empty(tg.attr_text("related_pin"@)), 0),
                    Seq::empty(),
                ),
            },
        }
    }

    /// The arc sets of timing groups to one port, behind `done`.
    pub open spec fn port_sets(
        self,
        to: Seq<char>,
        function: Option<Seq<char>>,
        groups: Seq<GroupView>,
        done: Seq<ArcSetView>,
    ) -> Result<Seq<ArcSetView>, Seq<char>>
        decreases groups.len(),
    {
        if groups.len() == 0 {
            Ok(done)
        } else {
            match self.timing_sets(to, function, groups[0]) {
                Err(e) => Err(e),
                Ok(s) => self.port_sets(to, function, groups.skip(1), done + s),
            }
        }
    }

    /// The arc sets of a pin group to each of the ports named, behind `done`.
    pub open spec fn pin_sets(self, pg: GroupView, ports: Seq<ValueView>, done: Seq<ArcSetView>) -> Result<
        Seq<ArcSetView>,
        Seq<char>,
    >
        decreases ports.len(),
    {
        if ports.len() == 0 {
            Ok(done)
        } else {
            match self.port_sets(
                ports[0].text(),
                pg.attr_text("function"@),
                pg.groups_of("timing"@),
                done,
            ) {
                Err(e) => Err(e),
                Ok(s) => self.pin_sets(pg, ports.skip(1), s),
            }
        }
    }

    /// The arc sets of pin groups, behind `done`.
    pub open spec fn cell_sets(self, pins: Seq<GroupView>, done: Seq<ArcSetView>) -> Result<
        Seq<ArcSetView>,
        Seq<char>,
    >
        decreases pins.len(),
    {
        if pins.len() == 0 {
            Ok(done)
        } else {
            match self.pin_sets(pins[0], pins[0].params, done) {
                Err(e) => Err(e),
                Ok(s) => self.cell_sets(pins.skip(1), s),
            }
        }
    }
}

/// A pin's capacitance for the transition `word` and min/max: that of the transition's range, else
/// of the transition, else of the pin, else the library's default for its direction.
pub open spec fn port_cap(h: HeaderView, pg: GroupView, word: Seq<char>, mm: int) -> F32 {
    let range = pg.complex_attr(word + "_capacitance_range"@);
    let own = pg.attr_float(word + "_capacitance"@);
    let all = pg.attr_float("capacitance"@);
    if range matches Some(v) && v.len() == 2 && v[mm].float() is Some {
        range->0[mm].float()->0 * h.cap_scale
    } else if own is Some {
        own->0 * h.cap_scale
    } else if all is Some {
        all->0 * h.cap_scale
    } else {
        h.default_cap(direction_of(pg))
    }
}

pub open spec fn direction_of(pg: GroupView) -> Direction {
    match pg.attr_text("direction"@) {
        Some(d) => Direction::named(d),
        None => Direction::Unknown,
    }
}

pub open spec fn port_of(h: HeaderView, name: Seq<char>, pg: GroupView) -> PortView {
    PortView {
        name,
        direction: direction_of(pg),
        is_clock: pg.attr_text("clock"@) == Some("true"@),
        capacitance: seq![
            seq![port_cap(h, pg, "rise"@, 0), port_cap(h, pg, "rise"@, 1)],
            seq![port_cap(h, pg, "fall"@, 0), port_cap(h, pg, "fall"@, 1)],
        ],
    }
}

/// The ports of pin groups, one per name each lists.
pub open spec fn ports_of(h: HeaderView, pins: Seq<GroupView>) -> Seq<PortView>
    decreases pins.len(),
{
    if pins.len() == 0 {
        Seq::empty()
    } else {
        let pg = pins.last();
        ports_of(h, pins.drop_last()) + Seq::new(
            pg.params.len(),
            |i: int| port_of(h, pg.params[i].text(), pg),
        )
    }
}

/// The cell holds a bus or a bundle.
pub open spec fn has_bus(groups: Seq<GroupView>) -> bool {
    exists|i: int|
        0 <= i < groups.len() && ((#[trigger] groups[i]).kind == "bus"@ || groups[i].kind == "bundle"@)
}

/// The cell of a cell group, or why it is refused.
#[verifier::opaque]
pub open spec fn cell_of(h: HeaderView, templates: Map<Seq<char>, Seq<AxisView>>, cg: GroupView) -> Result<
    CellView,
    Seq<char>,
> {
    match cg.name() {
        None => Err("cell without a name"@),
        Some(name) => if has_bus(cg.groups) {
            Err("cell "@ + name + ": buses and bundles are not modelled"@)
        } else {
            let states = states_of(cg);
            let pins = cg.groups_of("pin"@);
            let context = CellContext { header: h, templates, cell: name, states };
            match context.cell_sets(pins, Seq::empty()) {
                Err(e) => Err(e),
                Ok(arc_sets) => Ok(
                    CellView {
                        name,
                        ports: ports_of(h, pins),
                        arc_sets,
                        sequentials: Seq::new(
                            states.len(),
                            |i: int| (states[i].outputs, states[i].is_register, states[i].clock),
                        ),
                    },
                ),
            }
        },
    }
}

/// The cells of cell groups, added to `done`, the last of a name kept.
pub open spec fn cells_of(
    h: HeaderView,
    templates: Map<Seq<char>, Seq<AxisView>>,
    groups: Seq<GroupView>,
    done: Map<Seq<char>, CellView>,
) -> Result<Map<Seq<char>, CellView>, Seq<char>>
    decreases groups.len(),
{
    if groups.len() == 0 {
        Ok(done)
    } else {
        match cell_of(h, templates, groups[0]) {
            Err(e) => Err(e),
            Ok(c) => cells_of(h, templates, groups.skip(1), done.insert(c.name, c)),
        }
    }
}

/// The capacitance unit: 1 pf where the library gives none, or why it is refused.
pub open spec fn cap_unit(g: GroupView) -> Result<F32, Seq<char>> {
    match g.complex_attr("capacitive_load_unit"@) {
        Some(v) => if v.len() == 2 && v[1] is Str {
            let suffix = v[1]->Str_0;
            match v[0].float() {
                None => Err("capacitive_load_unit scale is not a float"@),
                Some(scale) => if text::same_letters(suffix, "ff"@) {
                    Ok(scale * F32(FEMTO))
                } else if text::same_letters(suffix, "pf"@) {
                    Ok(scale * F32(PICO))
                } else {
                    Err("capacitive_load_units are not ff or pf"@)
                },
            }
        } else {
            Ok(F32(PICO))
        },
        None => Ok(F32(PICO)),
    }
}

/// A percentage attribute as a fraction.
pub open spec fn threshold_of(g: GroupView, name: Seq<char>, default: F32) -> F32 {
    match g.attr_float(name) {
        Some(v) => v * F32(PERCENT),
        None => default,
    }
}

/// A pair of percentage attributes, for rise and fall.
pub open spec fn thresholds_of(g: GroupView, name: Seq<char>, default: F32) -> Seq<F32> {
    seq![threshold_of(g, name + "rise"@, default), threshold_of(g, name + "fall"@, default)]
}

pub open spec fn cap_attr(g: GroupView, name: Seq<char>, cap_scale: F32) -> F32 {
    match g.attr_float(name) {
        Some(v) => v * cap_scale,
        None => F32(0),
    }
}

pub open spec fn header_of(g: GroupView, cap_scale: F32) -> HeaderView {
    HeaderView {
        name: name_or_empty(g),
        time_scale: match g.attr_text("time_unit"@) {
            Some(t) => scale_of(t, "s"@),
            None => F32(NANO),
        },
        cap_scale,
        default_input_pin_cap: cap_attr(g, "default_input_pin_cap"@, cap_scale),
        default_output_pin_cap: cap_attr(g, "default_output_pin_cap"@, cap_scale),
        default_bidirect_pin_cap: cap_attr(g, "default_inout_pin_cap"@, cap_scale),
        input_threshold: thresholds_of(g, "input_threshold_pct_"@, F32(DEFAULT_THRESHOLD)),
        output_threshold: thresholds_of(g, "output_threshold_pct_"@, F32(DEFAULT_THRESHOLD)),
        slew_lower_threshold: thresholds_of(g, "slew_lower_threshold_pct_"@, F32(DEFAULT_SLEW_LOWER)),
        slew_upper_threshold: thresholds_of(g, "slew_upper_threshold_pct_"@, F32(DEFAULT_SLEW_UPPER)),
        slew_derate: match g.attr_float("slew_derate_from_library"@) {
            Some(v) => v,
            None => F32(ONE),
        },
    }
}

/// The library of a `library` group, or why it is refused.
pub open spec fn library_of(g: GroupView) -> Result<LibraryView, Seq<char>> {
    match cap_unit(g) {
        Err(e) => Err(e),
        Ok(cap_scale) => {
            let header = header_of(g, cap_scale);
            let templates = templates_of(header, g.groups_of("lu_table_template"@));
            match cells_of(header, templates, g.groups_of("cell"@), Map::empty()) {
                Err(e) => Err(e),
                Ok(cells) => Ok(LibraryView { header, templates, cells }),
            }
        },
    }
}

/// A value for every combination of axis values, on at most three axes.
pub open spec fn sized(t: TableView) -> bool {
    t.axes.len() <= 3 && t.values.len() == cell_count(t.axes)
}

pub open spec fn sized_or_none(t: Option<TableView>) -> bool {
    t matches Some(t) ==> sized(t)
}

impl ModelView {
    pub open spec fn valid(self) -> bool {
        match self {
            ModelView::Gate(m) => sized_or_none(m.delay) && sized_or_none(m.slew),
            ModelView::Check(t) => sized(t),
        }
    }
}

impl ArcView {
    /// An arc goes between two transitions.
    pub open spec fn timed(self) -> bool {
        self.from_rf < 2 && self.to_rf < 2
    }

    /// An arc goes between two transitions, its tables sized as their axes are.
    pub open spec fn valid(self) -> bool {
        self.timed() && self.model.valid()
    }
}

impl ArcSetView {
    pub open spec fn valid(self) -> bool {
        forall|k: int| 0 <= k < self.arcs.len() ==> (#[trigger] self.arcs[k]).valid()
    }
}

pub open spec fn sets_valid(sets: Seq<ArcSetView>) -> bool {
    forall|i: int| 0 <= i < sets.len() ==> (#[trigger] sets[i]).valid()
}

pub open spec fn cells_valid(cells: Map<Seq<char>, CellView>) -> bool {
    forall|c: Seq<char>| cells.contains_key(c) ==> sets_valid((#[trigger] cells[c]).arc_sets)
}

pub open spec fn templates_valid(templates: Map<Seq<char>, Seq<AxisView>>) -> bool {
    forall|n: Seq<char>| templates.contains_key(n) ==> (#[trigger] templates[n]).len() <= 3
}

impl LibraryView {
    /// Templates have at most three axes; every arc is valid.
    pub open spec fn valid(self) -> bool {
        templates_valid(self.templates) && cells_valid(self.cells)
    }

    /// Every arc goes between two transitions.
    pub open spec fn timed(self) -> bool {
        forall|c: Seq<char>, i: int, k: int|
            self.cells.contains_key(c) && 0 <= i < self.cells[c].arc_sets.len() && 0 <= k
                < self.cells[c].arc_sets[i].arcs.len() ==> (#[trigger] self.cells[c].arc_sets[i].arcs[k]).timed()
    }

    /// Every arc of a valid library goes between two transitions.
    pub proof fn lemma_valid_is_timed(self)
        requires
            self.valid(),
        ensures
            self.timed(),
    {
        assert forall|c: Seq<char>, i: int, k: int|
            self.cells.contains_key(c) && 0 <= i < self.cells[c].arc_sets.len() && 0 <= k
                < self.cells[c].arc_sets[i].arcs.len() implies (
        #[trigger] self.cells[c].arc_sets[i].arcs[k]).timed() by {
            assert(sets_valid(self.cells[c].arc_sets));
            assert(self.cells[c].arc_sets[i].valid());
            assert(self.cells[c].arc_sets[i].arcs[k].valid());
        }
    }
}

proof fn lemma_template_axes(h: HeaderView, tg: GroupView, k: nat, done: Seq<AxisView>)
    requires
        1 <= k <= 4,
        done.len() < k,
    ensures
        template_axes(h, tg, k, done).len() <= 3,
    decreases 4 - k,
{
    if k <= 3 {
        match tg.attr_text(numbered("variable_"@, k)) {
            None => {},
            Some(var) => {
                lemma_template_axes(
                    h,
                    tg,
                    k + 1,
                    done.push(
                        axis_of(
                            h,
                            AxisVar::named(var),
                            match tg.complex_attr(numbered("index_"@, k)) {
                                Some(v) => v,
                                None => Seq::empty(),
                            },
                        ),
                    ),
                );
            },
        }
    }
}

proof fn lemma_templates(h: HeaderView, groups: Seq<GroupView>)
    ensures
        templates_valid(templates_of(h, groups)),
    decreases groups.len(),
{
    if groups.len() > 0 {
        lemma_templates(h, groups.drop_last());
        lemma_template_axes(h, groups.last(), 1, Seq::empty());
    }
}

proof fn lemma_model(h: HeaderView, templates: Map<Seq<char>, Seq<AxisView>>, tg: GroupView, word: Seq<char>)
    requires
        templates_valid(templates),
    ensures
        model_of(h, templates, tg, word) matches Ok(Some(m)) ==> m.valid(),
{
    assert forall|g: GroupView, scale: F32|
        (#[trigger] table_of(h, templates, g, scale)) matches Ok(t) ==> sized(t) by {}
}

proof fn lemma_arcs(t: TimingView, pairs: Seq<(nat, nat)>)
    requires
        t.models.len() == 2,
        forall|i: int| 0 <= i < 2 ==> ((#[trigger] t.models[i]) matches Some(m) ==> m.valid()),
        forall|i: int| 0 <= i < pairs.len() ==> (#[trigger] pairs[i]).0 < 2 && pairs[i].1 < 2,
    ensures
        forall|k: int| 0 <= k < t.arcs(pairs).len() ==> (#[trigger] t.arcs(pairs)[k]).valid(),
    decreases pairs.len(),
{
    if pairs.len() > 0 {
        assert forall|i: int| 0 <= i < pairs.drop_last().len() implies (#[trigger] pairs.drop_last()[i]).0 < 2
            && pairs.drop_last()[i].1 < 2 by {
            assert(pairs.drop_last()[i] == pairs[i]);
        }
        lemma_arcs(t, pairs.drop_last());
        assert(pairs[pairs.len() - 1].1 < 2);
        assert(t.models[pairs.last().1 as int] matches Some(m) ==> m.valid());
        let before = t.arcs(pairs.drop_last());
        assert forall|k: int| 0 <= k < t.arcs(pairs).len() implies (#[trigger] t.arcs(pairs)[k]).valid() by {
            if k < before.len() {
                assert(t.arcs(pairs)[k] == before[k]);
            }
        }
    }
}

proof fn lemma_set_from(t: TimingView, from: Seq<char>)
    requires
        t.models.len() == 2,
        forall|i: int| 0 <= i < 2 ==> ((#[trigger] t.models[i]) matches Some(m) ==> m.valid()),
    ensures
        t.set_from(from) matches Ok(Some(s)) ==> s.valid(),
{
    assert forall|pairs: Seq<(nat, nat)>|
        (forall|i: int| 0 <= i < pairs.len() ==> (#[trigger] pairs[i]).0 < 2 && pairs[i].1 < 2) implies (
    forall|k: int| 0 <= k < (#[trigger] t.arcs(pairs)).len() ==> t.arcs(pairs)[k].valid()) by {
        lemma_arcs(t, pairs);
    }
}

proof fn lemma_sets(t: TimingView, related: Seq<Seq<char>>, done: Seq<ArcSetView>)
    requires
        t.models.len() == 2,
        forall|i: int| 0 <= i < 2 ==> ((#[trigger] t.models[i]) matches Some(m) ==> m.valid()),
        sets_valid(done),
    ensures
        t.sets(related, done) matches Ok(s) ==> sets_valid(s),
    decreases related.len(),
{
    if related.len() > 0 {
        lemma_set_from(t, related[0]);
        match t.set_from(related[0]) {
            Ok(None) => {
                lemma_sets(t, related.skip(1), done);
            },
            Ok(Some(s)) => {
                lemma_sets(t, related.skip(1), done.push(s));
            },
            Err(_) => {},
        }
    }
}

proof fn lemma_timing_sets(c: CellContext, to: Seq<char>, function: Option<Seq<char>>, tg: GroupView)
    requires
        templates_valid(c.templates),
    ensures
        c.timing_sets(to, function, tg) matches Ok(s) ==> sets_valid(s),
{
    lemma_model(c.header, c.templates, tg, "rise"@);
    lemma_model(c.header, c.templates, tg, "fall"@);
    if let (Ok(rise), Ok(fall)) = (
        model_of(c.header, c.templates, tg, "rise"@),
        model_of(c.header, c.templates, tg, "fall"@),
    ) {
        let t = TimingView {
            cell: c.cell,
            to,
            timing_type: match tg.attr_text("timing_type"@) {
                Some(t) => t,
                None => "combinational"@,
            },
            sense: tg.attr_text("timing_sense"@),
            cond: tg.attr_text("when"@),
            models: seq![rise, fall],
            state: match function {
                Some(f) => state_with_output(c.states, identifiers_of(f)),
                None => None,
            },
        };
        lemma_sets(
            t,
            names::words(WordKind::Solid, text_or_empty(tg.attr_text("related_pin"@)), 0),
            Seq::empty(),
        );
    }
}

proof fn lemma_port_sets(
    c: CellContext,
    to: Seq<char>,
    function: Option<Seq<char>>,
    groups: Seq<GroupView>,
    done: Seq<ArcSetView>,
)
    requires
        templates_valid(c.templates),
        sets_valid(done),
    ensures
        c.port_sets(to, function, groups, done) matches Ok(s) ==> sets_valid(s),
    decreases groups.len(),
{
    if groups.len() > 0 {
        lemma_timing_sets(c, to, function, groups[0]);
        if let Ok(s) = c.timing_sets(to, function, groups[0]) {
            assert forall|i: int| 0 <= i < (done + s).len() implies (#[trigger] (done + s)[i]).valid() by {
                if i < done.len() {
                    assert((done + s)[i] == done[i]);
                } else {
                    assert((done + s)[i] == s[i - done.len()]);
                }
            }
            lemma_port_sets(c, to, function, groups.skip(1), done + s);
        }
    }
}

proof fn lemma_pin_sets(c: CellContext, pg: GroupView, ports: Seq<ValueView>, done: Seq<ArcSetView>)
    requires
        templates_valid(c.templates),
        sets_valid(done),
    ensures
        c.pin_sets(pg, ports, done) matches Ok(s) ==> sets_valid(s),
    decreases ports.len(),
{
    if ports.len() > 0 {
        let (function, groups) = (pg.attr_text("function"@), pg.groups_of("timing"@));
        lemma_port_sets(c, ports[0].text(), function, groups, done);
        if let Ok(s) = c.port_sets(ports[0].text(), function, groups, done) {
            lemma_pin_sets(c, pg, ports.skip(1), s);
        }
    }
}

proof fn lemma_cell_sets(c: CellContext, pins: Seq<GroupView>, done: Seq<ArcSetView>)
    requires
        templates_valid(c.templates),
        sets_valid(done),
    ensures
        c.cell_sets(pins, done) matches Ok(s) ==> sets_valid(s),
    decreases pins.len(),
{
    if pins.len() > 0 {
        lemma_pin_sets(c, pins[0], pins[0].params, done);
        if let Ok(s) = c.pin_sets(pins[0], pins[0].params, done) {
            lemma_cell_sets(c, pins.skip(1), s);
        }
    }
}

proof fn lemma_cells(
    h: HeaderView,
    templates: Map<Seq<char>, Seq<AxisView>>,
    groups: Seq<GroupView>,
    done: Map<Seq<char>, CellView>,
)
    requires
        templates_valid(templates),
        cells_valid(done),
    ensures
        cells_of(h, templates, groups, done) matches Ok(cells) ==> cells_valid(cells),
    decreases groups.len(),
{
    if groups.len() > 0 {
        let cg = groups[0];
        reveal(cell_of);
        if let Ok(c) = cell_of(h, templates, cg) {
            lemma_cell_sets(
                CellContext { header: h, templates, cell: c.name, states: states_of(cg) },
                cg.groups_of("pin"@),
                Seq::empty(),
            );
            lemma_cells(h, templates, groups.skip(1), done.insert(c.name, c));
        }
    }
}

/// Every arc of a library that is read goes between rise and fall, and its tables hold one value
/// per combination of axis values, on at most three axes.
pub proof fn lemma_read_library_is_valid(g: GroupView)
    ensures
        library_of(g) matches Ok(lib) ==> lib.valid(),
{
    if let Ok(cap_scale) = cap_unit(g) {
        let header = header_of(g, cap_scale);
        let templates = templates_of(header, g.groups_of("lu_table_template"@));
        lemma_templates(header, g.groups_of("lu_table_template"@));
        lemma_cells(header, templates, g.groups_of("cell"@), Map::empty());
    }
}

/// A table of a library that is read can be looked up at any numbers, where its axes hold values in
/// ascending order.
pub proof fn lemma_sized_table_is_complete(t: TableView)
    requires
        sized(t),
        forall|k: int|
            0 <= k < t.axes.len() ==> (#[trigger] t.axes[k]).values.len() >= 1 && table::ascending(
                t.axes[k].values,
            ),
    ensures
        t.complete(),
{
    lemma_cell_counts(t, 0);
    let bare = TableView { axes: t.axes, values: Seq::empty() };
    lemma_cell_counts(bare, 0);
    lemma_same_cells(t, bare, 0);
}

proof fn lemma_cell_counts(t: TableView, k: int)
    requires
        0 <= k <= t.axes.len(),
        forall|j: int| 0 <= j < t.axes.len() ==> (#[trigger] t.axes[j]).values.len() >= 1,
    ensures
        t.cells_from(k) >= 1,
    decreases t.axes.len() - k,
{
    if k < t.axes.len() {
        lemma_cell_counts(t, k + 1);
        let (a, b) = (t.axes[k].values.len() as int, t.cells_from(k + 1) as int);
        assert(a * b >= 1) by (nonlinear_arith)
            requires
                a >= 1,
                b >= 1,
        ;
    }
}

proof fn lemma_same_cells(a: TableView, b: TableView, k: int)
    requires
        a.axes == b.axes,
        0 <= k <= a.axes.len(),
    ensures
        a.cells_from(k) == b.cells_from(k),
    decreases a.axes.len() - k,
{
    if k < a.axes.len() {
        lemma_same_cells(a, b, k + 1);
    }
}

/// An `ff` or `latch` group as its timing arcs read it.
struct State {
    outputs: Vec<String>,
    is_register: bool,
    clock: String,
    data: Vec<String>,
}

impl State {
    spec fn seen(self) -> StateView {
        StateView {
            outputs: names::text_views(self.outputs@),
            is_register: self.is_register,
            clock: self.clock@,
            data: names::text_views(self.data@),
        }
    }
}

spec fn states_seen(v: Seq<State>) -> Seq<StateView> {
    Seq::new(v.len(), |i: int| v[i].seen())
}

/// A timing group to one port: what its arc sets are made from.
struct Timing<'a> {
    cell: &'a str,
    to: &'a str,
    timing_type: String,
    sense: Option<String>,
    cond: Option<String>,
    rise: Option<Model>,
    fall: Option<Model>,
    state: Option<&'a State>,
}

impl<'a> Timing<'a> {
    spec fn seen(self) -> TimingView {
        TimingView {
            cell: self.cell@,
            to: self.to@,
            timing_type: self.timing_type@,
            sense: text_view(self.sense),
            cond: text_view(self.cond),
            models: seq![model_view(self.rise), model_view(self.fall)],
            state: match self.state {
                Some(s) => Some(s.seen()),
                None => None,
            },
        }
    }

    fn push_arc(&self, arcs: &mut Vec<Arc>, from_rf: usize, to_rf: usize, Ghost(pairs): Ghost<Seq<(nat, nat)>>)
        requires
            to_rf < 2,
            arc_views(old(arcs)@) == self.seen().arcs(pairs),
        ensures
            arc_views(final(arcs)@) == self.seen().arcs(pairs.push((from_rf as nat, to_rf as nat))),
    {
        let ghost next = pairs.push((from_rf as nat, to_rf as nat));
        assert(next.drop_last() =~= pairs);
        let model: &Option<Model> = if to_rf == RISE {
            &self.rise
        } else {
            &self.fall
        };
        match model {
            Some(m) => {
                let ghost done = arc_views(arcs@);
                let arc: Arc = Arc { from_rf, to_rf, model: m.clone() };
                let ghost seen = arc@;
                arcs.push(arc);
                assert(arc_views(arcs@) =~= done.push(seen));
            },
            None => {},
        }
    }

    fn arc_set(&self, from: &str, role: Role, arcs: Vec<Arc>) -> (r: ArcSet)
        ensures
            r@ == (ArcSetView {
                from: from@,
                to: self.to@,
                role,
                timing_type: self.timing_type@,
                cond: text_view(self.cond),
                arcs: arc_views(arcs@),
            }),
    {
        let cond: Option<String> = match &self.cond {
            Some(c) => Some(c.clone()),
            None => None,
        };
        ArcSet {
            from: from.to_owned(),
            to: self.to.to_owned(),
            role,
            timing_type: self.timing_type.clone(),
            cond,
            arcs,
        }
    }

    fn from_transition(&self, from: &str, from_rf: usize, role: Role) -> (r: ArcSet)
        ensures
            r@ == self.seen().from_transition(from@, from_rf as nat, role),
    {
        let mut arcs: Vec<Arc> = Vec::new();
        let ghost f = from_rf as nat;
        let ghost none = Seq::<(nat, nat)>::empty();
        assert(arc_views(arcs@) =~= Seq::<ArcView>::empty());
        self.push_arc(&mut arcs, from_rf, RISE, Ghost(none));
        self.push_arc(&mut arcs, from_rf, FALL, Ghost(none.push((f, 0nat))));
        assert(none.push((f, 0nat)).push((f, 1nat)) =~= seq![(f, 0nat), (f, 1nat)]);
        self.arc_set(from, role, arcs)
    }

    fn in_clock(&self, from: &str) -> (r: bool)
        ensures
            r == self.seen().from_clock(from@),
    {
        match self.state {
            Some(s) => names::contains(&identifiers(s.clock.as_str()), from),
            None => false,
        }
    }

    fn in_latch_data(&self, from: &str) -> (r: bool)
        ensures
            r == self.seen().from_latch_data(from@),
    {
        match self.state {
            Some(s) => !s.is_register && names::contains(&s.data, from),
            None => false,
        }
    }

    fn is_type(&self, name: &str) -> (r: bool)
        ensures
            r == (self.timing_type@ == name@),
    {
        *self.timing_type.as_str() == *name
    }

    fn has_sense(&self, name: &str) -> (r: bool)
        ensures
            r == (self.seen().sense == Some(name@)),
    {
        match &self.sense {
            Some(s) => *s.as_str() == *name,
            None => false,
        }
    }

    /// The arcs of a combinational group by its sense; none without one.
    fn sense_arcs(&self) -> (r: Option<Vec<Arc>>)
        ensures
            match r {
                Some(a) => self.seen().sense_pairs() is Some && arc_views(a@) == self.seen().arcs(
                    self.seen().sense_pairs()->0,
                ),
                None => self.seen().sense_pairs() is None,
            },
    {
        let to_rise: bool = !self.is_type("combinational_fall");
        let to_fall: bool = !self.is_type("combinational_rise");
        let mut arcs: Vec<Arc> = Vec::new();
        let ghost mut pairs = Seq::<(nat, nat)>::empty();
        assert(arc_views(arcs@) =~= Seq::<ArcView>::empty());
        if self.has_sense("positive_unate") {
            if to_rise {
                self.push_arc(&mut arcs, RISE, RISE, Ghost(pairs));
                proof {
                    pairs = pairs.push((0, 0));
                }
            }
            if to_fall {
                self.push_arc(&mut arcs, FALL, FALL, Ghost(pairs));
                proof {
                    pairs = pairs.push((1, 1));
                }
            }
        } else if self.has_sense("negative_unate") {
            if to_fall {
                self.push_arc(&mut arcs, RISE, FALL, Ghost(pairs));
                proof {
                    pairs = pairs.push((0, 1));
                }
            }
            if to_rise {
                self.push_arc(&mut arcs, FALL, RISE, Ghost(pairs));
                proof {
                    pairs = pairs.push((1, 0));
                }
            }
        } else if self.has_sense("non_unate") {
            if to_fall {
                self.push_arc(&mut arcs, FALL, FALL, Ghost(pairs));
                self.push_arc(&mut arcs, RISE, FALL, Ghost(pairs.push((1, 1))));
                proof {
                    pairs = pairs.push((1, 1)).push((0, 1));
                }
            }
            if to_rise {
                self.push_arc(&mut arcs, RISE, RISE, Ghost(pairs));
                self.push_arc(&mut arcs, FALL, RISE, Ghost(pairs.push((0, 0))));
                proof {
                    pairs = pairs.push((0, 0)).push((1, 0));
                }
            }
        } else {
            return None;
        }
        assert(pairs =~= self.seen().sense_pairs()->0);
        Some(arcs)
    }

    /// The role and from transition of a check.
    fn check(&self) -> (r: Option<(Role, usize)>)
        ensures
            match r {
                Some((role, rf)) => self.seen().check() == Some((role, rf as nat)) && rf < 2,
                None => self.seen().check() is None,
            },
    {
        if self.is_type("setup_rising") {
            Some((Role::Setup, RISE))
        } else if self.is_type("setup_falling") {
            Some((Role::Setup, FALL))
        } else if self.is_type("hold_rising") {
            Some((Role::Hold, RISE))
        } else if self.is_type("hold_falling") {
            Some((Role::Hold, FALL))
        } else if self.is_type("recovery_rising") {
            Some((Role::Recovery, RISE))
        } else if self.is_type("recovery_falling") {
            Some((Role::Recovery, FALL))
        } else if self.is_type("removal_rising") {
            Some((Role::Removal, RISE))
        } else if self.is_type("removal_falling") {
            Some((Role::Removal, FALL))
        } else {
            None
        }
    }

    fn set_clear_arcs(&self, to_rf: usize) -> (r: Vec<Arc>)
        requires
            to_rf < 2,
        ensures
            arc_views(r@) == self.seen().arcs(self.seen().set_clear_pairs(to_rf as nat)),
    {
        let opposite: usize = 1 - to_rf;
        let ghost (t, o) = (to_rf as nat, opposite as nat);
        let ghost none = Seq::<(nat, nat)>::empty();
        let mut arcs: Vec<Arc> = Vec::new();
        assert(arc_views(arcs@) =~= Seq::<ArcView>::empty());
        if self.has_sense("positive_unate") {
            self.push_arc(&mut arcs, to_rf, to_rf, Ghost(none));
            assert(none.push((t, t)) =~= seq![(t, t)]);
        } else if self.has_sense("negative_unate") {
            self.push_arc(&mut arcs, opposite, to_rf, Ghost(none));
            assert(none.push((o, t)) =~= seq![(o, t)]);
        } else {
            self.push_arc(&mut arcs, to_rf, to_rf, Ghost(none));
            self.push_arc(&mut arcs, opposite, to_rf, Ghost(none.push((t, t))));
            assert(none.push((t, t)).push((o, t)) =~= seq![(t, t), (o, t)]);
        }
        arcs
    }

    fn set_from(&self, from: &str) -> (r: Result<Option<ArcSet>, String>)
        ensures
            match r {
                Ok(s) => self.seen().set_from(from@) == Ok::<Option<ArcSetView>, Seq<char>>(arc_set_view(s)),
                Err(e) => self.seen().set_from(from@) == Err::<Option<ArcSetView>, Seq<char>>(e@),
            },
    {
        if self.is_type("combinational") && self.in_clock(from) {
            let mut e: String = text::join("cell ", self.cell);
            e.append(": a register timing group without timing_type (from ");
            e.append(from);
            e.append(") is not modelled");
            return Err(e);
        }
        if self.is_type("combinational") || self.is_type("combinational_rise") || self.is_type(
            "combinational_fall",
        ) {
            return match self.sense_arcs() {
                Some(arcs) => {
                    let role: Role = if self.in_latch_data(from) {
                        Role::LatchDtoQ
                    } else {
                        Role::Combinational
                    };
                    Ok(Some(self.arc_set(from, role, arcs)))
                },
                None => {
                    let mut e: String = text::join("cell ", self.cell);
                    e.append(": a combinational arc ");
                    e.append(from);
                    e.append(" -> ");
                    e.append(self.to);
                    e.append(" without timing_sense is not modelled");
                    Err(e)
                },
            };
        }
        if self.is_type("rising_edge") || self.is_type("falling_edge") {
            let from_rf: usize = if self.is_type("rising_edge") {
                RISE
            } else {
                FALL
            };
            let latch: bool = match self.state {
                Some(s) => !s.is_register,
                None => false,
            };
            let role: Role = if latch && self.in_clock(from) {
                Role::LatchEnToQ
            } else {
                Role::RegClkToQ
            };
            return Ok(Some(self.from_transition(from, from_rf, role)));
        }
        match self.check() {
            Some((role, from_rf)) => {
                return Ok(Some(self.from_transition(from, from_rf, role)));
            },
            None => {},
        }
        if self.is_type("preset") || self.is_type("clear") {
            let to_rf: usize = if self.is_type("preset") {
                RISE
            } else {
                FALL
            };
            if (to_rf == RISE && self.rise.is_none()) || (to_rf == FALL && self.fall.is_none()) {
                return Ok(None);
            }
            let arcs: Vec<Arc> = self.set_clear_arcs(to_rf);
            return Ok(Some(self.arc_set(from, Role::RegSetClr, arcs)));
        }
        let arcs: Vec<Arc> = Vec::new();
        assert(arc_views(arcs@) =~= Seq::<ArcView>::empty());
        Ok(Some(self.arc_set(from, Role::Other, arcs)))
    }

    fn sets(&self, related: &Vec<String>) -> (r: Result<Vec<ArcSet>, String>)
        ensures
            match r {
                Ok(s) => self.seen().sets(names::text_views(related@), Seq::empty()) == Ok::<
                    Seq<ArcSetView>,
                    Seq<char>,
                >(arc_set_views(s@)),
                Err(e) => self.seen().sets(names::text_views(related@), Seq::empty()) == Err::<
                    Seq<ArcSetView>,
                    Seq<char>,
                >(e@),
            },
    {
        let mut out: Vec<ArcSet> = Vec::new();
        let mut i: usize = 0;
        let ghost all = names::text_views(related@);
        assert(arc_set_views(out@) =~= Seq::<ArcSetView>::empty());
        assert(all.skip(0) =~= all);
        while i < related.len()
            invariant
                i <= related@.len(),
                all == names::text_views(related@),
                self.seen().sets(all.skip(i as int), arc_set_views(out@)) == self.seen().sets(all, Seq::empty()),
            decreases related@.len() - i,
        {
            assert(all.skip(i as int).skip(1) =~= all.skip(i + 1));
            match self.set_from(related[i].as_str())? {
                Some(s) => {
                    let ghost done = arc_set_views(out@);
                    let ghost next = s@;
                    out.push(s);
                    assert(arc_set_views(out@) =~= done.push(next));
                },
                None => {},
            }
            i = i + 1;
        }
        Ok(out)
    }
}

pub open spec fn arc_set_view(s: Option<ArcSet>) -> Option<ArcSetView> {
    match s {
        Some(s) => Some(s@),
        None => None,
    }
}

fn find_state<'a>(states: &'a Vec<State>, ids: &Vec<String>) -> (r: Option<&'a State>)
    ensures
        match r {
            Some(s) => state_with_output(states_seen(states@), names::text_views(ids@)) == Some(s.seen()),
            None => state_with_output(states_seen(states@), names::text_views(ids@)) is None,
        },
{
    let ghost all = states_seen(states@);
    let ghost names = names::text_views(ids@);
    let mut i: usize = 0;
    assert(all.skip(0) =~= all);
    while i < states.len()
        invariant
            i <= states@.len(),
            all == states_seen(states@),
            names == names::text_views(ids@),
            state_with_output(all.skip(i as int), names) == state_with_output(all, names),
        decreases states@.len() - i,
    {
        assert(all.skip(i as int).skip(1) =~= all.skip(i + 1));
        let outputs: &Vec<String> = &states[i].outputs;
        let ghost views = names::text_views(outputs@);
        assert(views == all[i as int].outputs);
        let mut j: usize = 0;
        while j < outputs.len()
            invariant
                j <= outputs@.len(),
                i < states@.len(),
                all == states_seen(states@),
                names == names::text_views(ids@),
                views == names::text_views(outputs@),
                views == all.skip(i as int)[0].outputs,
                all.skip(i as int)[0] == states@[i as int].seen(),
                all.skip(i as int).len() > 0,
                state_with_output(all.skip(i as int), names) == state_with_output(all, names),
                forall|k: int| 0 <= k < j ==> !names.contains(#[trigger] views[k]),
            decreases outputs@.len() - j,
        {
            if names::contains(ids, outputs[j].as_str()) {
                assert(names.contains(views[j as int]));
                return Some(&states[i]);
            }
            j = j + 1;
        }
        i = i + 1;
    }
    None
}

fn read_state(sg: &Group, is_register: bool) -> (r: State)
    ensures
        r.seen() == state_of(sg@, is_register),
{
    let clock_attr: &str = if is_register {
        "clocked_on"
    } else {
        "enable"
    };
    let mut outputs: Vec<String> = Vec::new();
    let mut i: usize = 0;
    while i < sg.params.len()
        invariant
            i <= sg.params@.len(),
            outputs@.len() == i,
            forall|j: int| 0 <= j < i ==> (#[trigger] outputs@[j])@ == sg@.params[j].text(),
        decreases sg.params@.len() - i,
    {
        outputs.push(sg.params[i].text());
        i = i + 1;
    }
    let clock: String = match sg.attr_text(clock_attr) {
        Some(c) => c,
        None => String::new(),
    };
    let data_in: String = match sg.attr_text("data_in") {
        Some(d) => d,
        None => String::new(),
    };
    let s: State = State { outputs, is_register, clock, data: identifiers(data_in.as_str()) };
    assert(data_in@ =~= text_or_empty(sg@.attr_text("data_in"@)));
    assert(s.seen() =~= state_of(sg@, is_register));
    s
}

fn read_states(cg: &Group) -> (r: Vec<State>)
    ensures
        states_seen(r@) == states_of(cg@),
{
    let mut states: Vec<State> = Vec::new();
    let ff: Vec<&Group> = cg.groups_of("ff");
    let latch: Vec<&Group> = cg.groups_of("latch");
    let ghost all = states_of(cg@);
    let mut i: usize = 0;
    while i < ff.len()
        invariant
            i <= ff@.len(),
            all == states_of(cg@),
            ff@.len() == cg@.groups_of("ff"@).len(),
            forall|j: int| 0 <= j < ff@.len() ==> (#[trigger] ff@[j])@ == cg@.groups_of("ff"@)[j],
            states_seen(states@) =~= all.take(i as int),
        decreases ff@.len() - i,
    {
        let ghost done = states_seen(states@);
        let s: State = read_state(ff[i], true);
        let ghost next = s.seen();
        states.push(s);
        assert(states_seen(states@) =~= done.push(next));
        i = i + 1;
    }
    let mut k: usize = 0;
    while k < latch.len()
        invariant
            k <= latch@.len(),
            i == ff@.len(),
            all == states_of(cg@),
            ff@.len() == cg@.groups_of("ff"@).len(),
            latch@.len() == cg@.groups_of("latch"@).len(),
            forall|j: int| 0 <= j < latch@.len() ==> (#[trigger] latch@[j])@ == cg@.groups_of("latch"@)[j],
            states_seen(states@) =~= all.take(i + k),
        decreases latch@.len() - k,
    {
        let ghost done = states_seen(states@);
        let s: State = read_state(latch[k], false);
        let ghost next = s.seen();
        states.push(s);
        assert(states_seen(states@) =~= done.push(next));
        k = k + 1;
    }
    assert(all.take(i + k) =~= all);
    states
}

/// Values of one kind or the reason why there are none, by their views.
spec fn sets_seen(r: Result<Vec<ArcSet>, String>) -> Result<Seq<ArcSetView>, Seq<char>> {
    match r {
        Ok(s) => Ok(arc_set_views(s@)),
        Err(e) => Err(e@),
    }
}

impl Library {
    spec fn context(self, cell: Seq<char>, states: Seq<State>) -> CellContext {
        CellContext { header: self.header(), templates: self@.templates, cell, states: states_seen(states) }
    }

    /// The arc sets of one timing group to port `to`: its models per transition, its role and arcs
    /// by `timing_type` and `timing_sense`, one arc set per related pin.
    fn read_timing(
        &self,
        cell: &str,
        states: &Vec<State>,
        to: &str,
        function: &Option<String>,
        tg: &Group,
    ) -> (r: Result<Vec<ArcSet>, String>)
        ensures
            sets_seen(r) == self.context(cell@, states@).timing_sets(to@, text_view(*function), tg@),
    {
        let rise: Option<Model> = self.read_model(tg, "rise")?;
        let fall: Option<Model> = self.read_model(tg, "fall")?;
        let timing_type: String = match tg.attr_text("timing_type") {
            Some(t) => t,
            None => "combinational".to_owned(),
        };
        // The output's state, through the ports its function names.
        let state: Option<&State> = match function {
            Some(f) => find_state(states, &identifiers(f.as_str())),
            None => None,
        };
        let related_pin: String = match tg.attr_text("related_pin") {
            Some(p) => p,
            None => String::new(),
        };
        assert(related_pin@ =~= text_or_empty(tg@.attr_text("related_pin"@)));
        let related: Vec<String> = names::split_words(WordKind::Solid, related_pin.as_str());
        let timing: Timing = Timing {
            cell,
            to,
            timing_type,
            sense: tg.attr_text("timing_sense"),
            cond: tg.attr_text("when"),
            rise,
            fall,
            state,
        };
        timing.sets(&related)
    }

    fn read_port_sets(
        &self,
        cell: &str,
        states: &Vec<State>,
        to: &str,
        function: &Option<String>,
        groups: &Vec<&Group>,
        Ghost(views): Ghost<Seq<GroupView>>,
        done: Vec<ArcSet>,
    ) -> (r: Result<Vec<ArcSet>, String>)
        requires
            groups@.len() == views.len(),
            forall|i: int| 0 <= i < groups@.len() ==> (#[trigger] groups@[i])@ == views[i],
        ensures
            sets_seen(r) == self.context(cell@, states@).port_sets(
                to@,
                text_view(*function),
                views,
                arc_set_views(done@),
            ),
    {
        let mut out: Vec<ArcSet> = done;
        let mut i: usize = 0;
        let ghost context = self.context(cell@, states@);
        let ghost f = text_view(*function);
        let ghost whole = context.port_sets(to@, f, views, arc_set_views(out@));
        assert(views.skip(0) =~= views);
        while i < groups.len()
            invariant
                i <= groups@.len() == views.len(),
                forall|i: int| 0 <= i < groups@.len() ==> (#[trigger] groups@[i])@ == views[i],
                context == self.context(cell@, states@),
                f == text_view(*function),
                context.port_sets(to@, f, views.skip(i as int), arc_set_views(out@)) == whole,
                whole == context.port_sets(to@, f, views, arc_set_views(done@)),
            decreases groups@.len() - i,
        {
            assert(views.skip(i as int).skip(1) =~= views.skip(i + 1));
            let mut sets: Vec<ArcSet> = self.read_timing(cell, states, to, function, groups[i])?;
            let ghost before = arc_set_views(out@);
            let ghost next = arc_set_views(sets@);
            out.append(&mut sets);
            assert(arc_set_views(out@) =~= before + next);
            i = i + 1;
        }
        Ok(out)
    }

    fn read_pin_sets(&self, cell: &str, states: &Vec<State>, pg: &Group, done: Vec<ArcSet>) -> (r: Result<
        Vec<ArcSet>,
        String,
    >)
        ensures
            sets_seen(r) == self.context(cell@, states@).pin_sets(pg@, pg@.params, arc_set_views(done@)),
    {
        let function: Option<String> = pg.attr_text("function");
        let groups: Vec<&Group> = pg.groups_of("timing");
        let mut out: Vec<ArcSet> = done;
        let mut i: usize = 0;
        let ghost context = self.context(cell@, states@);
        let ghost params = pg@.params;
        let ghost whole = context.pin_sets(pg@, params, arc_set_views(out@));
        assert(params.skip(0) =~= params);
        while i < pg.params.len()
            invariant
                i <= pg.params@.len(),
                params == pg@.params,
                text_view(function) == pg@.attr_text("function"@),
                groups@.len() == pg@.groups_of("timing"@).len(),
                forall|i: int| 0 <= i < groups@.len() ==> (#[trigger] groups@[i])@ == pg@.groups_of("timing"@)[i],
                context == self.context(cell@, states@),
                context.pin_sets(pg@, params.skip(i as int), arc_set_views(out@)) == whole,
                whole == context.pin_sets(pg@, params, arc_set_views(done@)),
            decreases pg.params@.len() - i,
        {
            assert(params.skip(i as int).skip(1) =~= params.skip(i + 1));
            let to: String = pg.params[i].text();
            out = self.read_port_sets(
                cell,
                states,
                to.as_str(),
                &function,
                &groups,
                Ghost(pg@.groups_of("timing"@)),
                out,
            )?;
            i = i + 1;
        }
        Ok(out)
    }

    fn read_cell_sets(&self, cell: &str, states: &Vec<State>, pins: &Vec<&Group>, Ghost(views): Ghost<
        Seq<GroupView>,
    >) -> (r: Result<Vec<ArcSet>, String>)
        requires
            pins@.len() == views.len(),
            forall|i: int| 0 <= i < pins@.len() ==> (#[trigger] pins@[i])@ == views[i],
        ensures
            sets_seen(r) == self.context(cell@, states@).cell_sets(views, Seq::empty()),
    {
        let mut out: Vec<ArcSet> = Vec::new();
        let mut i: usize = 0;
        let ghost context = self.context(cell@, states@);
        assert(views.skip(0) =~= views);
        assert(arc_set_views(out@) =~= Seq::<ArcSetView>::empty());
        while i < pins.len()
            invariant
                i <= pins@.len() == views.len(),
                forall|i: int| 0 <= i < pins@.len() ==> (#[trigger] pins@[i])@ == views[i],
                context == self.context(cell@, states@),
                context.cell_sets(views.skip(i as int), arc_set_views(out@)) == context.cell_sets(
                    views,
                    Seq::empty(),
                ),
            decreases pins@.len() - i,
        {
            assert(views.skip(i as int).skip(1) =~= views.skip(i + 1));
            out = self.read_pin_sets(cell, states, pins[i], out)?;
            i = i + 1;
        }
        Ok(out)
    }

    fn default_cap(&self, dir: Direction) -> (r: F32)
        ensures
            r == self.header().default_cap(dir),
    {
        match dir {
            Direction::Input => self.default_input_pin_cap,
            Direction::Output | Direction::Tristate => self.default_output_pin_cap,
            Direction::Bidirect => self.default_bidirect_pin_cap,
            _ => F32(0),
        }
    }

    /// A transition's min and max capacitance.
    fn read_caps(&self, pg: &Group, word: &str, default: F32) -> (r: [F32; 2])
        requires
            default == self.header().default_cap(direction_of(pg@)),
        ensures
            r@ == seq![
                port_cap(self.header(), pg@, word@, 0),
                port_cap(self.header(), pg@, word@, 1),
            ],
    {
        let mut cap: F32 = default;
        match pg.attr_float("capacitance") {
            Some(c) => {
                cap = c * self.cap_scale;
            },
            None => {},
        }
        match pg.attr_float(text::join(word, "_capacitance").as_str()) {
            Some(c) => {
                cap = c * self.cap_scale;
            },
            None => {},
        }
        let mut low: F32 = cap;
        let mut high: F32 = cap;
        match pg.complex_attr(text::join(word, "_capacitance_range").as_str()) {
            Some(v) => {
                if v.len() == 2 {
                    match v[0].float() {
                        Some(lo) => {
                            low = lo * self.cap_scale;
                        },
                        None => {},
                    }
                    match v[1].float() {
                        Some(hi) => {
                            high = hi * self.cap_scale;
                        },
                        None => {},
                    }
                }
            },
            None => {},
        }
        [low, high]
    }

    /// Port attributes: `capacitance` sets all four values, then `rise_/fall_capacitance` a
    /// transition's min and max, then `_capacitance_range (min, max)` each; whatever is still unset
    /// takes the library default for the direction.
    fn read_port(&self, name: String, pg: &Group) -> (r: Port)
        ensures
            r@ == port_of(self.header(), name@, pg@),
    {
        let direction: Direction = match pg.attr_text("direction") {
            Some(d) => Direction::parse(d.as_str()),
            None => Direction::Unknown,
        };
        let default: F32 = self.default_cap(direction);
        let rise: [F32; 2] = self.read_caps(pg, "rise", default);
        let fall: [F32; 2] = self.read_caps(pg, "fall", default);
        let is_clock: bool = match pg.attr_text("clock") {
            Some(c) => *c.as_str() == *"true",
            None => false,
        };
        let p: Port = Port { name, direction, is_clock, capacitance: [rise, fall] };
        assert(p@.capacitance =~= port_of(self.header(), name@, pg@).capacitance);
        p
    }

    fn read_ports(&self, pins: &Vec<&Group>, Ghost(views): Ghost<Seq<GroupView>>) -> (r: Vec<Port>)
        requires
            pins@.len() == views.len(),
            forall|i: int| 0 <= i < pins@.len() ==> (#[trigger] pins@[i])@ == views[i],
        ensures
            port_views(r@) == ports_of(self.header(), views),
    {
        let mut ports: Vec<Port> = Vec::new();
        let mut i: usize = 0;
        assert(views.take(0) =~= Seq::<GroupView>::empty());
        assert(port_views(ports@) =~= Seq::<PortView>::empty());
        while i < pins.len()
            invariant
                i <= pins@.len() == views.len(),
                forall|i: int| 0 <= i < pins@.len() ==> (#[trigger] pins@[i])@ == views[i],
                port_views(ports@) == ports_of(self.header(), views.take(i as int)),
            decreases pins@.len() - i,
        {
            assert(views.take(i + 1).drop_last() =~= views.take(i as int));
            let pg: &Group = pins[i];
            let ghost before = port_views(ports@);
            let ghost own = Seq::new(
                pg@.params.len(),
                |j: int| port_of(self.header(), pg@.params[j].text(), pg@),
            );
            let mut k: usize = 0;
            assert(before + own.take(0) =~= before);
            while k < pg.params.len()
                invariant
                    k <= pg.params@.len(),
                    own == Seq::new(
                        pg@.params.len(),
                        |j: int| port_of(self.header(), pg@.params[j].text(), pg@),
                    ),
                    port_views(ports@) == before + own.take(k as int),
                decreases pg.params@.len() - k,
            {
                let ghost done = port_views(ports@);
                let p: Port = self.read_port(pg.params[k].text(), pg);
                let ghost next = p@;
                ports.push(p);
                assert(port_views(ports@) =~= done.push(next));
                assert(port_views(ports@) =~= before + own.take(k + 1));
                k = k + 1;
            }
            assert(own.take(k as int) =~= own);
            i = i + 1;
        }
        assert(views.take(i as int) =~= views);
        ports
    }

    fn read_cell(&self, cg: &Group) -> (r: Result<Cell, String>)
        ensures
            match r {
                Ok(c) => cell_of(self.header(), self@.templates, cg@) == Ok::<CellView, Seq<char>>(c@),
                Err(e) => cell_of(self.header(), self@.templates, cg@) == Err::<CellView, Seq<char>>(e@),
            },
    {
        reveal(cell_of);
        let name: String = match cg.name() {
            Some(n) => n,
            None => {
                return Err("cell without a name".to_owned());
            },
        };
        let mut i: usize = 0;
        while i < cg.groups.len()
            invariant
                i <= cg.groups@.len(),
                cg@.name() == Some(name@),
                forall|j: int|
                    0 <= j < i ==> (#[trigger] cg@.groups[j]).kind != "bus"@ && cg@.groups[j].kind != "bundle"@,
            decreases cg.groups@.len() - i,
        {
            let kind: &str = cg.groups[i].kind.as_str();
            assert(cg@.groups[i as int] == liberty_parse::group_view(cg.groups@[i as int]));
            assert(liberty_parse::group_view(cg.groups@[i as int]).kind == kind@);
            if *kind == *"bus" || *kind == *"bundle" {
                let mut e: String = text::join("cell ", name.as_str());
                e.append(": buses and bundles are not modelled");
                reveal(cell_of);
                return Err(e);
            }
            i = i + 1;
        }
        let states: Vec<State> = read_states(cg);
        let pins: Vec<&Group> = cg.groups_of("pin");
        let ghost views = cg@.groups_of("pin"@);
        let ports: Vec<Port> = self.read_ports(&pins, Ghost(views));
        let arc_sets: Vec<ArcSet> = self.read_cell_sets(name.as_str(), &states, &pins, Ghost(views))?;
        let mut sequentials: Vec<(Vec<String>, bool, String)> = Vec::new();
        let mut k: usize = 0;
        while k < states.len()
            invariant
                k <= states@.len(),
                sequentials@.len() == k,
                forall|j: int|
                    0 <= j < k ==> {
                        &&& names::text_views((#[trigger] sequentials@[j]).0@) == states_seen(states@)[j].outputs
                        &&& sequentials@[j].1 == states_seen(states@)[j].is_register
                        &&& sequentials@[j].2@ == states_seen(states@)[j].clock
                    },
            decreases states@.len() - k,
        {
            let outputs: Vec<String> = states[k].outputs.clone();
            assert(names::text_views(outputs@) =~= names::text_views(states@[k as int].outputs@));
            sequentials.push((outputs, states[k].is_register, states[k].clock.clone()));
            k = k + 1;
        }
        let cell: Cell = Cell { name, ports, arc_sets, sequentials };
        assert(cell@.sequentials =~= Seq::new(
            states_of(cg@).len(),
            |i: int| (states_of(cg@)[i].outputs, states_of(cg@)[i].is_register, states_of(cg@)[i].clock),
        ));
        Ok(cell)
    }

    fn read_templates(&mut self, groups: &Vec<&Group>, Ghost(views): Ghost<Seq<GroupView>>)
        requires
            groups@.len() == views.len(),
            forall|i: int| 0 <= i < groups@.len() ==> (#[trigger] groups@[i])@ == views[i],
            old(self)@.templates == Map::<Seq<char>, Seq<AxisView>>::empty(),
        ensures
            final(self)@.header == old(self)@.header,
            final(self)@.templates == templates_of(old(self).header(), views),
            final(self)@.cells == old(self)@.cells,
    {
        let mut i: usize = 0;
        let ghost header = self.header();
        assert(views.take(0) =~= Seq::<GroupView>::empty());
        while i < groups.len()
            invariant
                i <= groups@.len() == views.len(),
                forall|i: int| 0 <= i < groups@.len() ==> (#[trigger] groups@[i])@ == views[i],
                header == old(self).header(),
                self.header() == header,
                self@.cells == old(self)@.cells,
                self@.templates == templates_of(header, views.take(i as int)),
            decreases groups@.len() - i,
        {
            assert(views.take(i + 1).drop_last() =~= views.take(i as int));
            match groups[i].name() {
                Some(name) => {
                    let axes: Vec<Axis> = self.read_template(groups[i]);
                    let ghost before = self.templates@;
                    let ghost (n, a) = (name@, axes);
                    self.templates.insert(name, axes);
                    assert(template_views(self.templates@) =~= template_views(before).insert(
                        n,
                        table::axis_views(a@),
                    ));
                },
                None => {},
            }
            i = i + 1;
        }
        assert(views.take(i as int) =~= views);
    }

    fn add_cell(&mut self, cell: Cell)
        ensures
            final(self)@ == (LibraryView { cells: old(self)@.cells.insert(cell@.name, cell@), ..old(self)@ }),
    {
        let ghost before = self.cells@;
        let ghost c = cell;
        self.cells.insert(cell.name.clone(), cell);
        assert(cell_views(self.cells@) =~= cell_views(before).insert(c@.name, c@));
    }

    fn read_cells(&mut self, groups: &Vec<&Group>, Ghost(views): Ghost<Seq<GroupView>>) -> (r: Result<(), String>)
        requires
            groups@.len() == views.len(),
            forall|i: int| 0 <= i < groups@.len() ==> (#[trigger] groups@[i])@ == views[i],
            old(self)@.cells == Map::<Seq<char>, CellView>::empty(),
        ensures
            final(self)@.header == old(self)@.header,
            final(self)@.templates == old(self)@.templates,
            match r {
                Ok(_) => cells_of(old(self).header(), old(self)@.templates, views, Map::empty()) == Ok::<
                    Map<Seq<char>, CellView>,
                    Seq<char>,
                >(final(self)@.cells),
                Err(e) => cells_of(old(self).header(), old(self)@.templates, views, Map::empty()) == Err::<
                    Map<Seq<char>, CellView>,
                    Seq<char>,
                >(e@),
            },
    {
        let mut i: usize = 0;
        let ghost header = self.header();
        let ghost templates = self@.templates;
        assert(views.skip(0) =~= views);
        while i < groups.len()
            invariant
                i <= groups@.len() == views.len(),
                forall|i: int| 0 <= i < groups@.len() ==> (#[trigger] groups@[i])@ == views[i],
                header == old(self).header(),
                templates == old(self)@.templates,
                self@.header == header,
                self@.templates == templates,
                cells_of(header, templates, views.skip(i as int), self@.cells) == cells_of(
                    header,
                    templates,
                    views,
                    Map::empty(),
                ),
            decreases groups@.len() - i,
        {
            assert(views.skip(i as int).skip(1) =~= views.skip(i + 1));
            let cell: Cell = self.read_cell(groups[i])?;
            self.add_cell(cell);
            i = i + 1;
        }
        Ok(())
    }

    /// Read a parsed `library` group.
    pub fn read(g: &Group) -> (r: Result<Library, String>)
        ensures
            match r {
                Ok(lib) => library_of(g@) == Ok::<LibraryView, Seq<char>>(lib@) && lib@.valid() && lib@.timed(),
                Err(e) => library_of(g@) == Err::<LibraryView, Seq<char>>(e@),
            },
    {
        proof {
            lemma_read_library_is_valid(g@);
        }
        let name: String = match g.name() {
            Some(n) => n,
            None => String::new(),
        };
        assert(name@ =~= name_or_empty(g@));
        let time_scale: F32 = match g.attr_text("time_unit") {
            Some(t) => unit_scale(t.as_str(), "s"),
            None => F32(NANO),
        };
        let cap_scale: F32 = read_cap_unit(g)?;
        let mut lib: Library = Library {
            name,
            time_scale,
            cap_scale,
            default_input_pin_cap: read_cap(g, "default_input_pin_cap", cap_scale),
            default_output_pin_cap: read_cap(g, "default_output_pin_cap", cap_scale),
            default_bidirect_pin_cap: read_cap(g, "default_inout_pin_cap", cap_scale),
            input_threshold: read_thresholds(g, "input_threshold_pct_", F32(DEFAULT_THRESHOLD)),
            output_threshold: read_thresholds(g, "output_threshold_pct_", F32(DEFAULT_THRESHOLD)),
            slew_lower_threshold: read_thresholds(g, "slew_lower_threshold_pct_", F32(DEFAULT_SLEW_LOWER)),
            slew_upper_threshold: read_thresholds(g, "slew_upper_threshold_pct_", F32(DEFAULT_SLEW_UPPER)),
            slew_derate: match g.attr_float("slew_derate_from_library") {
                Some(v) => v,
                None => F32(ONE),
            },
            templates: NameMap::new(),
            cells: NameMap::new(),
        };
        assert(lib.header() =~= header_of(g@, cap_scale));
        assert(lib@.templates =~= Map::<Seq<char>, Seq<AxisView>>::empty());
        assert(lib@.cells =~= Map::<Seq<char>, CellView>::empty());
        let templates: Vec<&Group> = g.groups_of("lu_table_template");
        lib.read_templates(&templates, Ghost(g@.groups_of("lu_table_template"@)));
        let cells: Vec<&Group> = g.groups_of("cell");
        lib.read_cells(&cells, Ghost(g@.groups_of("cell"@)))?;
        proof {
            assert(library_of(g@) == Ok::<LibraryView, Seq<char>>(lib@));
            lib@.lemma_valid_is_timed();
        }
        Ok(lib)
    }
}

fn read_cap_unit(g: &Group) -> (r: Result<F32, String>)
    ensures
        match r {
            Ok(s) => cap_unit(g@) == Ok::<F32, Seq<char>>(s),
            Err(e) => cap_unit(g@) == Err::<F32, Seq<char>>(e@),
        },
{
    match g.complex_attr("capacitive_load_unit") {
        Some(v) => {
            if v.len() == 2 {
                match &v[1] {
                    Value::Str(suffix) => {
                        let scale: F32 = match v[0].float() {
                            Some(s) => s,
                            None => {
                                return Err("capacitive_load_unit scale is not a float".to_owned());
                            },
                        };
                        if text::equal_ignoring_case(suffix.as_str(), "ff") {
                            return Ok(scale * F32(FEMTO));
                        }
                        if text::equal_ignoring_case(suffix.as_str(), "pf") {
                            return Ok(scale * F32(PICO));
                        }
                        return Err("capacitive_load_units are not ff or pf".to_owned());
                    },
                    _ => {},
                }
            }
            Ok(F32(PICO))
        },
        None => Ok(F32(PICO)),
    }
}

fn read_cap(g: &Group, name: &str, cap_scale: F32) -> (r: F32)
    ensures
        r == cap_attr(g@, name@, cap_scale),
{
    match g.attr_float(name) {
        Some(v) => v * cap_scale,
        None => F32(0),
    }
}

fn read_threshold(g: &Group, name: &str, default: F32) -> (r: F32)
    ensures
        r == threshold_of(g@, name@, default),
{
    match g.attr_float(name) {
        Some(v) => v * F32(PERCENT),
        None => default,
    }
}

fn read_thresholds(g: &Group, name: &str, default: F32) -> (r: [F32; 2])
    ensures
        r@ == thresholds_of(g@, name@, default),
{
    [
        read_threshold(g, text::join(name, "rise").as_str(), default),
        read_threshold(g, text::join(name, "fall").as_str(), default),
    ]
}

} // verus!
