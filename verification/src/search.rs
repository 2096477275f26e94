//! Arrival, required and slack search over a delay-calculated graph, for one propagated clock with
//! input and output delays, setup checks and common-path pessimism removal (CRPR).
//!
//! Stages in order: [`Search::find_arrivals`] (per vertex in level order: fanin paths, CRPR
//! pruning, seeds), [`Search::find_requireds`] (per vertex in reverse level order: fanout paths,
//! and the endpoint's path ends), and the slack reads [`Search::vertex_slack`] and
//! [`Search::net_slack`].
//!
//! - A vertex holds one path per tag; a tag is transition, min/max, clock edge, is-clock and CRPR
//!   clock vertex. Paths are ordered by transition, min/max, clock-edge index (none first), data
//!   before clock, and the CRPR clock vertex's id, and every fold over a vertex's paths runs in
//!   that order, because every comparison is fuzzy ([`crate::fuzzy`]).
//! - Arrivals are sums `from + arc delay`, requireds differences `to - arc delay`; a path's slack is
//!   `required - arrival`.
//! - A clock tag entering a register clock pin over an arc whose min and max delays are fuzzily
//!   equal records the driving path as its CRPR clock path, and a clock-to-Q launch keeps it, so
//!   launched data tags are distinguished by the clock net's driver, not by each register.
//! - A setup check's required gains the CRPR credit: the launch and capture clock paths backed up
//!   (deeper first, by level) to their common pin, the smaller of the two `|max - min|` there.

use vstd::prelude::*;
use vstd::hash_map::StringHashMap;
use crate::float32::F32;
use crate::fuzzy;
use crate::graph;
use crate::graph::{EdgeKind, Graph, GraphView, Times};
use crate::levels;
use crate::liberty::{ArcSet, ArcView, Role, MAX};
use crate::sdc;
use crate::sdc::{PortDelay, PortDelayView, Sdc, SdcView};

verus! {

/// The min/max initial value, 1e30.
pub const INF: u32 = 0x7149_f2ca;

/// A tag's CRPR clock path: the vertex (its id orders tags) and that path's own tag.
#[derive(Debug, Clone, Copy, PartialEq, Eq, Hash)]
pub struct CrprPath {
    pub vertex: usize,
    pub rf: usize,
    pub mm: usize,
    pub clk_edge: usize,
}

#[derive(Debug, Clone, Copy, PartialEq, Eq, Hash)]
pub struct Tag {
    pub rf: usize,
    pub mm: usize,
    /// The clock edge (index: its transition, of the one clock), none for an unclocked path.
    pub clk_edge: Option<usize>,
    pub is_clock: bool,
    pub crpr: Option<CrprPath>,
}

/// What orders a tag.
pub type Key = (usize, usize, i64, bool, i64);

/// Keys in order: by their first difference, false before true.
pub open spec fn key_le(a: Key, b: Key) -> bool {
    if a.0 != b.0 {
        a.0 < b.0
    } else if a.1 != b.1 {
        a.1 < b.1
    } else if a.2 != b.2 {
        a.2 < b.2
    } else if a.3 != b.3 {
        b.3
    } else {
        a.4 <= b.4
    }
}

pub(crate) fn ordered(a: Key, b: Key) -> (r: bool)
    ensures
        r == key_le(a, b),
{
    if a.0 != b.0 {
        a.0 < b.0
    } else if a.1 != b.1 {
        a.1 < b.1
    } else if a.2 != b.2 {
        a.2 < b.2
    } else if a.3 != b.3 {
        b.3
    } else {
        a.4 <= b.4
    }
}

impl Tag {
    pub open spec fn crpr_vertex(self) -> Option<usize> {
        match self.crpr {
            Some(c) => Some(c.vertex),
            None => None,
        }
    }

    /// The CRPR path counts by its vertex's id.
    pub open spec fn sort_key(self, vertex_id: Seq<usize>) -> Key {
        (
            self.rf,
            self.mm,
            match self.clk_edge {
                Some(e) => e as i64,
                None => (-1) as i64,
            },
            self.is_clock,
            match self.crpr {
                Some(c) => vertex_id[c.vertex as int] as i64,
                None => (-1) as i64,
            },
        )
    }

    /// Equal but for the min/max and the CRPR clock path.
    pub open spec fn like_clock(self, other: Tag) -> bool {
        self.rf == other.rf && self.clk_edge == other.clk_edge && self.is_clock == other.is_clock
    }

    /// Equal but for the CRPR clock path.
    pub open spec fn like(self, other: Tag) -> bool {
        self.like_clock(other) && self.mm == other.mm
    }

    /// Equal, the CRPR clock path by its vertex.
    pub open spec fn same(self, other: Tag) -> bool {
        self.like(other) && self.crpr_vertex() == other.crpr_vertex()
    }

    /// The order of tags: the CRPR path counts by its vertex's id.
    pub fn key(&self, vertex_id: &[usize]) -> (r: Key)
        requires
            self.crpr matches Some(c) ==> c.vertex < vertex_id@.len(),
        ensures
            r == self.sort_key(vertex_id@),
    {
        (
            self.rf,
            self.mm,
            match self.clk_edge {
                Some(e) => e as i64,
                None => -1,
            },
            self.is_clock,
            match self.crpr {
                Some(c) => vertex_id[c.vertex] as i64,
                None => -1,
            },
        )
    }

    /// Tags equal, the CRPR clock vertex included.
    pub fn matches(&self, other: &Tag) -> (r: bool)
        ensures
            r == self.same(*other),
    {
        self.matches_no_crpr(other) && match (&self.crpr, &other.crpr) {
            (Some(a), Some(b)) => a.vertex == b.vertex,
            (None, None) => true,
            _ => false,
        }
    }

    /// Everything but the CRPR clock pin.
    pub fn matches_no_crpr(&self, other: &Tag) -> (r: bool)
        ensures
            r == self.like(*other),
    {
        self.matches_crpr(other) && self.mm == other.mm
    }

    /// Transition, clock edge, is-clock, but not min/max.
    pub fn matches_crpr(&self, other: &Tag) -> (r: bool)
        ensures
            r == self.like_clock(*other),
    {
        self.rf == other.rf && self.clk_edge == other.clk_edge && self.is_clock == other.is_clock
    }
}

/// Where a path's arrival came from: the fanin vertex's path (by tag), the edge and the arc.
#[derive(Debug, Clone, Copy, PartialEq)]
pub struct Prev {
    pub vertex: usize,
    pub tag: Tag,
    pub edge: usize,
    pub arc: usize,
}

#[derive(Debug, Clone, Copy, PartialEq)]
pub struct Path {
    pub tag: Tag,
    pub arrival: F32,
    pub required: F32,
    pub prev: Option<Prev>,
}

/// One arc of an edge as the search walks it.
#[derive(Debug, Clone, Copy, PartialEq, Eq)]
pub struct ArcRef {
    pub index: usize,
    pub to_rf: usize,
}

/// A timing check's role.
pub fn is_check_role(r: Role) -> (b: bool)
    ensures
        b == graph::is_check(r),
{
    matches!(r, Role::Setup | Role::Hold | Role::Recovery | Role::Removal)
}

/// What a path is looked for by.
#[derive(Debug, Clone, Copy)]
pub enum Sought {
    /// The same tag.
    Same(Tag),
    /// The tag, whatever its CRPR clock path.
    Like(Tag),
    /// The clock path that a CRPR clock path names.
    Clock(CrprPath),
    /// The path of the opposite min/max.
    Opposite(Tag),
}

impl Sought {
    pub open spec fn fits(self, t: Tag) -> bool {
        match self {
            Sought::Same(x) => t.same(x),
            Sought::Like(x) => t.like(x),
            Sought::Clock(c) => t.is_clock && t.rf == c.rf && t.mm == c.mm && t.clk_edge == Some(c.clk_edge),
            Sought::Opposite(x) => t.mm == 1 - x.mm && t.like_clock(x),
        }
    }

    fn fits_tag(&self, t: &Tag) -> (r: bool)
        ensures
            r == self.fits(*t),
    {
        match self {
            Sought::Same(x) => t.matches(x),
            Sought::Like(x) => t.matches_no_crpr(x),
            Sought::Clock(c) => t.is_clock && t.rf == c.rf && t.mm == c.mm && match t.clk_edge {
                Some(e) => e == c.clk_edge,
                None => false,
            },
            Sought::Opposite(x) => x.mm <= 1 && t.mm == 1 - x.mm && t.matches_crpr(x),
        }
    }
}

/// The first path from the `i`th on that is sought.
pub open spec fn first(paths: Seq<Path>, sought: Sought, i: int) -> Option<int>
    decreases paths.len() - i,
{
    if i < 0 || i >= paths.len() {
        None
    } else if sought.fits(paths[i].tag) {
        Some(i)
    } else {
        first(paths, sought, i + 1)
    }
}

/// What is found is there, and is the first that is sought.
pub proof fn lemma_first(paths: Seq<Path>, sought: Sought, i: int)
    requires
        0 <= i,
    ensures
        match first(paths, sought, i) {
            Some(j) => i <= j < paths.len() && sought.fits(paths[j].tag) && forall|k: int|
                i <= k < j ==> !sought.fits((#[trigger] paths[k]).tag),
            None => forall|k: int| i <= k < paths.len() ==> !sought.fits((#[trigger] paths[k]).tag),
        },
    decreases paths.len() - i,
{
    if i < paths.len() && !sought.fits(paths[i].tag) {
        lemma_first(paths, sought, i + 1);
    }
}

/// The first path that is sought.
pub(crate) fn find(paths: &Vec<Path>, sought: &Sought) -> (r: Option<usize>)
    ensures
        match r {
            Some(i) => first(paths@, *sought, 0) == Some(i as int) && i < paths@.len(),
            None => first(paths@, *sought, 0) is None,
        },
{
    let mut i: usize = 0;
    while i < paths.len()
        invariant
            i <= paths@.len(),
            first(paths@, *sought, i as int) == first(paths@, *sought, 0),
        decreases paths@.len() - i,
    {
        if sought.fits_tag(&paths[i].tag) {
            return Some(i);
        }
        i = i + 1;
    }
    None
}

/// The arcs of a set from a transition, in arc order.
pub open spec fn arcs_out_of(arcs: Seq<ArcView>, from_rf: usize) -> Seq<ArcRef>
    decreases arcs.len(),
{
    if arcs.len() == 0 {
        Seq::empty()
    } else {
        let before = arcs_out_of(arcs.drop_last(), from_rf);
        if arcs.last().from_rf == from_rf {
            before.push(ArcRef { index: (arcs.len() - 1) as usize, to_rf: arcs.last().to_rf as usize })
        } else {
            before
        }
    }
}

/// Port delays by port, the last of a port kept.
pub open spec fn delay_index(delays: Seq<PortDelayView>) -> Map<Seq<char>, usize>
    decreases delays.len(),
{
    if delays.len() == 0 {
        Map::empty()
    } else {
        delay_index(delays.drop_last()).insert(delays.last().port, (delays.len() - 1) as usize)
    }
}

/// What a search is made over.
#[verifier::ext_equal]
pub struct SearchView {
    pub g: GraphView,
    pub times: Times,
    pub sdc: SdcView,
    pub vertex_id: Seq<usize>,
}

impl SearchView {
    /// The graph is valid, with a place for its times and an id for each vertex.
    pub open spec fn valid(self) -> bool {
        &&& self.g.valid()
        &&& self.g.libs_valid()
        &&& self.times.fits(self.g)
        &&& self.vertex_id.len() >= self.g.vertices.len()
    }

    /// Some edge out of `v` is a clock-to-Q arc.
    pub open spec fn is_reg_clk(self, v: int) -> bool {
        exists|e: int|
            0 <= e < self.g.edges.len() && (#[trigger] self.g.edges[e]).from == v && launches(self.g.role(e))
    }

    /// The arcs of an edge from a transition, in arc order.
    pub open spec fn arcs_from(self, e: int, from_rf: usize) -> Seq<ArcRef> {
        match self.g.edges[e].kind {
            EdgeKind::Wire => seq![ArcRef { index: from_rf, to_rf: from_rf }],
            EdgeKind::Gate { .. } => arcs_out_of(self.g.arc_set(e).arcs, from_rf),
        }
    }

    pub open spec fn arc_delay(self, e: int, arc: int, mm: int) -> F32 {
        self.times.delay[e][arc][mm]
    }

    /// The search walks an edge: it is not a timing check, nor a latch's data arc.
    pub open spec fn walks(self, e: int) -> bool {
        !self.g.checks(e) && self.g.role(e) != Some(Role::LatchDtoQ)
    }

    /// The tag that a path at `from_v` takes through an arc of edge `e`, the arc's delay and the
    /// arrival; none where the path does not go through.
    pub open spec fn through(self, from_v: usize, from: Path, e: int, arc: ArcRef) -> Option<(Tag, F32, F32)> {
        let mm = from.tag.mm;
        let delay = self.arc_delay(e, arc.index as int, mm as int);
        let role = self.g.role(e);
        let here = CrprPath { vertex: from_v, rf: from.tag.rf, mm, clk_edge: from.tag.clk_edge->0 };
        if role == Some(Role::RegClkToQ) {
            if !from.tag.is_clock || from.tag.clk_edge is None {
                None
            } else {
                let crpr = if from.tag.crpr is Some {
                    from.tag.crpr
                } else {
                    Some(here)
                };
                Some((Tag { rf: arc.to_rf, is_clock: false, crpr, ..from.tag }, delay, from.arrival + delay))
            }
        } else if role == Some(Role::LatchDtoQ) || role == Some(Role::LatchEnToQ) {
            None
        } else if from.tag.is_clock {
            let to_is_clk = role is None || role == Some(Role::Combinational);
            let level = fuzzy::close(delay, self.arc_delay(e, arc.index as int, 1 - mm));
            let crpr = if (!to_is_clk && !self.is_reg_clk(from_v as int)) || (self.is_reg_clk(
                self.g.edges[e].to as int,
            ) && level) {
                Some(here)
            } else {
                from.tag.crpr
            };
            Some((Tag { rf: arc.to_rf, is_clock: to_is_clk, crpr, ..from.tag }, delay, from.arrival + delay))
        } else {
            Some((Tag { rf: arc.to_rf, ..from.tag }, delay, from.arrival + delay))
        }
    }

    /// A path at vertex `v`: its transitions, min/max and clock edge are numbered, a clock path has
    /// a clock edge, the CRPR vertex is one of the graph, and it came along an edge into `v` that
    /// propagates.
    pub open spec fn path_valid(self, v: int, p: Path) -> bool {
        &&& self.tag_valid(p.tag)
        &&& p.prev matches Some(prev) ==> {
            &&& self.g.propagates(prev.edge as int)
            &&& self.g.edges[prev.edge as int].from == prev.vertex
            &&& self.g.edges[prev.edge as int].to == v
        }
    }

    pub open spec fn tag_valid(self, t: Tag) -> bool {
        &&& t.rf < 2
        &&& t.mm < 2
        &&& t.clk_edge matches Some(e) ==> e < 2
        &&& t.is_clock ==> t.clk_edge is Some
        &&& t.crpr matches Some(c) ==> c.vertex < self.g.vertices.len()
    }

    pub open spec fn list_valid(self, v: int, paths: Seq<Path>) -> bool {
        forall|i: int| 0 <= i < paths.len() ==> self.path_valid(v, #[trigger] paths[i])
    }

    /// Every vertex's paths are valid.
    pub open spec fn paths_valid(self, paths: Seq<Seq<Path>>) -> bool {
        &&& paths.len() == self.g.vertices.len()
        &&& forall|v: int| 0 <= v < paths.len() ==> self.list_valid(v, #[trigger] paths[v])
    }
}

/// The role of an arc that launches data from a clock.
pub open spec fn launches(role: Option<Role>) -> bool {
    role == Some(Role::RegClkToQ) || role == Some(Role::LatchEnToQ)
}

pub open spec fn path_views(v: Seq<Vec<Path>>) -> Seq<Seq<Path>> {
    Seq::new(v.len(), |i: int| v[i]@)
}

pub struct Search<'g, 'a> {
    pub graph: &'g Graph<'a>,
    pub sdc: &'g Sdc,
    /// Each vertex's paths, in tag order.
    pub paths: Vec<Vec<Path>>,
    /// Vertex id order (the order vertices were created in), which orders CRPR tags.
    pub vertex_id: Vec<usize>,
    /// Port delays by port.
    pub input_delay: StringHashMap<usize>,
    pub output_delay: StringHashMap<usize>,
    /// A vertex whose out-edges have a clock-to-Q arc.
    pub is_reg_clk: Vec<bool>,
    /// Roots 0, else the highest fanin level + 1 over edges but checks.
    pub level: Vec<usize>,
}

impl<'g, 'a> View for Search<'g, 'a> {
    type V = SearchView;

    open spec fn view(&self) -> SearchView {
        SearchView {
            g: self.graph@,
            times: self.graph.times(),
            sdc: self.sdc@,
            vertex_id: self.vertex_id@,
        }
    }
}

fn delays_by_port(delays: &Vec<PortDelay>) -> (r: StringHashMap<usize>)
    ensures
        r@ == delay_index(sdc::port_delay_views(delays@)),
{
    let ghost all = sdc::port_delay_views(delays@);
    let mut r: StringHashMap<usize> = StringHashMap::new();
    assert(all.take(0) =~= Seq::<PortDelayView>::empty());
    let mut i: usize = 0;
    while i < delays.len()
        invariant
            all == sdc::port_delay_views(delays@),
            i <= delays@.len(),
            r@ == delay_index(all.take(i as int)),
        decreases delays@.len() - i,
    {
        assert(all.take(i + 1).drop_last() =~= all.take(i as int));
        r.insert(delays[i].port.clone(), i);
        i = i + 1;
    }
    assert(all.take(i as int) =~= all);
    r
}

/// A port's delay is one of the list.
pub proof fn lemma_delay_index(delays: Seq<PortDelayView>, port: Seq<char>)
    requires
        delays.len() <= usize::MAX,
    ensures
        delay_index(delays).contains_key(port) ==> delay_index(delays)[port] < delays.len(),
    decreases delays.len(),
{
    if delays.len() > 0 {
        lemma_delay_index(delays.drop_last(), port);
    }
}

impl<'g, 'a> Search<'g, 'a> {
    /// Each vertex's paths.
    pub open spec fn path_lists(self) -> Seq<Seq<Path>> {
        path_views(self.paths@)
    }

    /// What is searched is valid, and what is remembered of it holds.
    pub open spec fn valid(self) -> bool {
        &&& self@.valid()
        &&& self.input_delay@ == delay_index(self@.sdc.input_delays)
        &&& self.output_delay@ == delay_index(self@.sdc.output_delays)
        &&& self.is_reg_clk@.len() == self@.g.vertices.len()
        &&& forall|v: int| 0 <= v < self.is_reg_clk@.len() ==> #[trigger] self.is_reg_clk@[v] == self@.is_reg_clk(v)
        &&& levels::level_views(self.level@) == levels::levels(self@.g)
    }

    /// A search over a graph; `vertex_id[v]` is the creation-order id of vertex `v`.
    pub fn new(graph: &'g Graph<'a>, sdc: &'g Sdc, vertex_id: Vec<usize>) -> (r: Search<'g, 'a>)
        requires
            graph@.valid(),
            graph@.libs_valid(),
            graph.times().fits(graph@),
            vertex_id@.len() >= graph.vertices@.len(),
        ensures
            r.valid(),
            r@ == (SearchView { g: graph@, times: graph.times(), sdc: sdc@, vertex_id: vertex_id@ }),
            r.graph == graph,
            r.sdc == sdc,
            r.path_lists() == Seq::new(graph@.vertices.len(), |v: int| Seq::<Path>::empty()),
            r@.paths_valid(r.path_lists()),
    {
        let n: usize = graph.vertices.len();
        let mut paths: Vec<Vec<Path>> = Vec::new();
        let mut i: usize = 0;
        while i < n
            invariant
                i <= n,
                paths@.len() == i,
                forall|v: int| 0 <= v < i ==> (#[trigger] paths@[v])@ =~= Seq::<Path>::empty(),
            decreases n - i,
        {
            paths.push(Vec::new());
            i = i + 1;
        }
        let ghost view = SearchView { g: graph@, times: graph.times(), sdc: sdc@, vertex_id: vertex_id@ };
        let is_reg_clk: Vec<bool> = reg_clks(graph, Ghost(view));
        let r: Search<'g, 'a> = Search {
            graph,
            sdc,
            paths,
            vertex_id,
            input_delay: delays_by_port(&sdc.input_delays),
            output_delay: delays_by_port(&sdc.output_delays),
            is_reg_clk,
            level: graph.find_levels(),
        };
        assert(r.path_lists() =~= Seq::new(graph@.vertices.len(), |v: int| Seq::<Path>::empty()));
        r
    }
}

/// Which vertices have a clock-to-Q arc out of them.
fn reg_clks<'a>(graph: &Graph<'a>, Ghost(view): Ghost<SearchView>) -> (r: Vec<bool>)
    requires
        graph@.valid(),
        view.g == graph@,
    ensures
        r@.len() == graph.vertices@.len(),
        forall|v: int| 0 <= v < r@.len() ==> #[trigger] r@[v] == view.is_reg_clk(v),
{
    let n: usize = graph.vertices.len();
    let mut r: Vec<bool> = Vec::new();
    let mut i: usize = 0;
    while i < n
        invariant
            i <= n,
            r@.len() == i,
            forall|v: int| 0 <= v < i ==> !(#[trigger] r@[v]),
        decreases n - i,
    {
        r.push(false);
        i = i + 1;
    }
    let mut e: usize = 0;
    while e < graph.edges.len()
        invariant
            graph@.valid(),
            view.g == graph@,
            n == graph.vertices@.len(),
            r@.len() == n,
            e <= graph.edges@.len(),
            forall|v: int|
                0 <= v < n ==> (#[trigger] r@[v] <==> exists|x: int|
                    0 <= x < e && (#[trigger] graph@.edges[x]).from == v && launches(graph@.role(x))),
        decreases graph.edges@.len() - e,
    {
        let ghost before = r@;
        assert(graph@.edge_valid(graph@.edges[e as int]));
        let from: usize = graph.edges[e].from;
        let role: Option<Role> = edge_role(graph, e);
        if matches!(role, Some(Role::RegClkToQ) | Some(Role::LatchEnToQ)) {
            r.set(from, true);
        }
        assert forall|v: int| 0 <= v < n implies (#[trigger] r@[v] <==> exists|x: int|
            0 <= x < e + 1 && (#[trigger] graph@.edges[x]).from == v && launches(graph@.role(x))) by {
            assert(graph@.edges[e as int].from == from);
            if before[v] {
                let x = choose|x: int|
                    0 <= x < e && (#[trigger] graph@.edges[x]).from == v && launches(graph@.role(x));
                assert(graph@.edges[x].from == v && launches(graph@.role(x)));
            }
        }
        e = e + 1;
    }
    r
}

fn edge_role<'a>(graph: &Graph<'a>, e: usize) -> (r: Option<Role>)
    requires
        graph@.valid(),
        e < graph.edges@.len(),
    ensures
        r == graph@.role(e as int),
{
    match graph.edges[e].kind {
        EdgeKind::Gate { set } => Some(graph.arc_set(e, set).role),
        EdgeKind::Wire => None,
    }
}

/// The arcs out of a transition are arcs of the set, and go to its transitions.
proof fn lemma_arcs_out_of(arcs: Seq<ArcView>, from_rf: usize)
    requires
        arcs.len() <= usize::MAX,
        forall|k: int| 0 <= k < arcs.len() ==> (#[trigger] arcs[k]).timed(),
    ensures
        forall|i: int|
            0 <= i < arcs_out_of(arcs, from_rf).len() ==> (#[trigger] arcs_out_of(arcs, from_rf)[i]).index
                < arcs.len() && arcs_out_of(arcs, from_rf)[i].to_rf < 2,
    decreases arcs.len(),
{
    if arcs.len() > 0 {
        let less = arcs.drop_last();
        assert forall|k: int| 0 <= k < less.len() implies (#[trigger] less[k]).timed() by {
            assert(less[k] == arcs[k]);
        }
        lemma_arcs_out_of(less, from_rf);
        let (before, all) = (arcs_out_of(less, from_rf), arcs_out_of(arcs, from_rf));
        assert(arcs[arcs.len() - 1].timed());
        assert forall|i: int| 0 <= i < all.len() implies (#[trigger] all[i]).index < arcs.len() && all[i].to_rf
            < 2 by {
            if i < before.len() {
                assert(all[i] == before[i]);
            }
        }
    }
}

impl SearchView {
    /// Every arc out of a transition has delays, and goes to rise or fall.
    pub proof fn lemma_arcs_from(self, e: int, from_rf: usize)
        requires
            self.valid(),
            0 <= e < self.g.edges.len(),
            from_rf < 2,
            self.g.edges[e].kind is Gate ==> self.g.arc_set(e).arcs.len() <= usize::MAX,
        ensures
            forall|i: int|
                0 <= i < self.arcs_from(e, from_rf).len() ==> (#[trigger] self.arcs_from(e, from_rf)[i]).index
                    < self.times.delay[e].len() && self.arcs_from(e, from_rf)[i].to_rf < 2,
    {
        if self.g.edges[e].kind is Gate {
            let arcs = self.g.arc_set(e).arcs;
            assert forall|k: int| 0 <= k < arcs.len() implies (#[trigger] arcs[k]).timed() by {
                self.g.lemma_arc_timed(e, k);
            }
            lemma_arcs_out_of(arcs, from_rf);
        }
    }
}

impl<'g, 'a> Search<'g, 'a> {
    pub(crate) fn role(&self, e: usize) -> (r: Option<Role>)
        requires
            self.valid(),
            e < self.graph.edges@.len(),
        ensures
            r == self@.g.role(e as int),
    {
        edge_role(self.graph, e)
    }

    pub(crate) fn walks(&self, e: usize) -> (r: bool)
        requires
            self.valid(),
            e < self.graph.edges@.len(),
        ensures
            r == self@.walks(e as int),
    {
        match self.role(e) {
            Some(role) => !is_check_role(role) && !matches!(role, Role::LatchDtoQ),
            None => true,
        }
    }

    /// The arcs from a transition, in arc order.
    pub(crate) fn arcs_from(&self, e: usize, from_rf: usize) -> (r: Vec<ArcRef>)
        requires
            self.valid(),
            e < self.graph.edges@.len(),
            from_rf < 2,
        ensures
            r@ == self@.arcs_from(e as int, from_rf),
            forall|i: int|
                0 <= i < r@.len() ==> (#[trigger] r@[i]).index < self@.times.delay[e as int].len() && r@[i].to_rf
                    < 2,
    {
        let mut r: Vec<ArcRef> = Vec::new();
        match self.graph.edges[e].kind {
            EdgeKind::Wire => {
                r.push(ArcRef { index: from_rf, to_rf: from_rf });
                assert(r@ =~= self@.arcs_from(e as int, from_rf));
            },
            EdgeKind::Gate { set } => {
                let found: &'a ArcSet = self.graph.arc_set(e, set);
                let ghost arcs = self@.g.arc_set(e as int).arcs;
                assert(arcs.take(0) =~= Seq::<ArcView>::empty());
                assert(found.arcs.len() <= usize::MAX);
                let mut k: usize = 0;
                while k < found.arcs.len()
                    invariant
                        found@.arcs == arcs,
                        k <= arcs.len(),
                        r@ == arcs_out_of(arcs.take(k as int), from_rf),
                    decreases arcs.len() - k,
                {
                    assert(arcs.take(k + 1).drop_last() =~= arcs.take(k as int));
                    assert(arcs[k as int] == found.arcs@[k as int]@);
                    if found.arcs[k].from_rf == from_rf {
                        r.push(ArcRef { index: k, to_rf: found.arcs[k].to_rf });
                    }
                    k = k + 1;
                }
                assert(arcs.take(k as int) =~= arcs);
            },
        }
        proof {
            self@.lemma_arcs_from(e as int, from_rf);
            assert forall|i: int| 0 <= i < r@.len() implies (#[trigger] r@[i]).index
                < self@.times.delay[e as int].len() && r@[i].to_rf < 2 by {
                assert(self@.arcs_from(e as int, from_rf)[i] == r@[i]);
            }
        }
        r
    }

    pub(crate) fn arc_delay(&self, e: usize, arc: usize, mm: usize) -> (r: F32)
        requires
            self.valid(),
            e < self.graph.edges@.len(),
            arc < self@.times.delay[e as int].len(),
            mm < 2,
        ensures
            r == self@.arc_delay(e as int, arc as int, mm as int),
    {
        self.graph.delay[e][arc][mm]
    }

    /// For the roles this subset has: the tag a path takes through one arc, the arc's delay, and
    /// the arrival it arrives with.
    pub(crate) fn visit_from_path(&self, from_v: usize, from: &Path, e: usize, arc: &ArcRef) -> (r: Option<
        (Tag, F32, F32),
    >)
        requires
            self.valid(),
            self@.tag_valid(from.tag),
            from_v < self.graph.vertices@.len(),
            e < self.graph.edges@.len(),
            arc.index < self@.times.delay[e as int].len(),
            arc.to_rf < 2,
        ensures
            r == self@.through(from_v, *from, e as int, *arc),
            r matches Some(x) ==> self@.tag_valid(x.0) && x.0.mm == from.tag.mm,
    {
        let to_v: usize = self.graph.edges[e].to;
        assert(self@.g.edge_valid(self@.g.edges[e as int]));
        let mm: usize = from.tag.mm;
        let delay: F32 = self.arc_delay(e, arc.index, mm);
        let role: Option<Role> = self.role(e);
        match role {
            Some(Role::RegClkToQ) => {
                let edge: usize = match from.tag.clk_edge {
                    Some(edge) => edge,
                    None => {
                        return None;
                    },
                };
                if !from.tag.is_clock {
                    return None;
                }
                let crpr: Option<CrprPath> = match from.tag.crpr {
                    Some(c) => Some(c),
                    None => Some(CrprPath { vertex: from_v, rf: from.tag.rf, mm, clk_edge: edge }),
                };
                let tag: Tag = Tag { rf: arc.to_rf, mm, clk_edge: from.tag.clk_edge, is_clock: false, crpr };
                Some((tag, delay, from.arrival + delay))
            },
            Some(Role::LatchDtoQ) | Some(Role::LatchEnToQ) => None,
            _ => match (from.tag.is_clock, from.tag.clk_edge) {
                (true, Some(edge)) => {
                    let to_is_clk: bool = matches!(role, None | Some(Role::Combinational));
                    let opposite: F32 = self.arc_delay(e, arc.index, 1 - mm);
                    let min_max_eq: bool = fuzzy::equal(delay, opposite);
                    let crpr: Option<CrprPath> = if (!to_is_clk && !self.is_reg_clk[from_v]) || (
                    self.is_reg_clk[to_v] && min_max_eq) {
                        Some(CrprPath { vertex: from_v, rf: from.tag.rf, mm, clk_edge: edge })
                    } else {
                        from.tag.crpr
                    };
                    let tag: Tag = Tag {
                        rf: arc.to_rf,
                        mm,
                        clk_edge: from.tag.clk_edge,
                        is_clock: to_is_clk,
                        crpr,
                    };
                    Some((tag, delay, from.arrival + delay))
                },
                _ => {
                    let tag: Tag = Tag { rf: arc.to_rf, ..from.tag };
                    Some((tag, delay, from.arrival + delay))
                },
            },
        }
    }
}

} // verus!
