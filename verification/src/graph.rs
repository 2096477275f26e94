//! The timing graph: a vertex per pin, an edge per arc set of a cell and per driver and load of a
//! net.

use vstd::prelude::*;
use vstd::hash_map::StringHashMap;
use vstd::string::StringExecFns;
pub use crate::delays::NetParasitics;
use crate::float32::F32;
use crate::liberty;
use crate::liberty::{ArcSet, ArcSetView, Cell, CellView, Direction, Library, LibraryView, PortView, Role};
use crate::netlist;
use crate::netlist::{Conn, ConnView, Netlist, NetlistView, PortDir};
use crate::text;

verus! {

/// A vertex: one pin (a bidirect pin is refused).
#[derive(Debug)]
pub struct Vertex {
    pub name: String,
    pub conn: Conn,
    pub is_driver: bool,
    /// The library and cell of an instance pin.
    pub lib: Option<usize>,
    pub cell: Option<String>,
    pub port: Option<String>,
}

/// What a vertex holds.
#[verifier::ext_equal]
pub struct VertexView {
    pub name: Seq<char>,
    pub conn: ConnView,
    pub is_driver: bool,
    pub lib: Option<usize>,
    pub cell: Option<Seq<char>>,
    pub port: Option<Seq<char>>,
}

impl View for Vertex {
    type V = VertexView;

    open spec fn view(&self) -> VertexView {
        VertexView {
            name: self.name@,
            conn: self.conn@,
            is_driver: self.is_driver,
            lib: self.lib,
            cell: liberty::text_view(self.cell),
            port: liberty::text_view(self.port),
        }
    }
}

impl Clone for Vertex {
    fn clone(&self) -> (r: Vertex)
        ensures
            r@ == self@,
    {
        Vertex {
            name: self.name.clone(),
            conn: self.conn.clone(),
            is_driver: self.is_driver,
            lib: self.lib,
            cell: liberty::copy_text(&self.cell),
            port: liberty::copy_text(&self.port),
        }
    }
}

pub open spec fn vertex_views(v: Seq<Vertex>) -> Seq<VertexView> {
    Seq::new(v.len(), |i: int| v[i]@)
}

#[derive(Debug, Clone, Copy, PartialEq, Eq, Structural)]
pub enum EdgeKind {
    /// An arc set of the instance's cell (index into `Cell::arc_sets`).
    Gate { set: usize },
    Wire,
}

#[derive(Debug, Clone, Copy)]
pub struct Edge {
    pub from: usize,
    pub to: usize,
    pub kind: EdgeKind,
}

pub struct Graph<'a> {
    pub libs: &'a [Library],
    pub netlist: &'a Netlist,
    pub vertices: Vec<Vertex>,
    pub edges: Vec<Edge>,
    pub in_edges: Vec<Vec<usize>>,
    pub out_edges: Vec<Vec<usize>>,
    /// The net each vertex is on, if any.
    pub vertex_net: Vec<Option<usize>>,
    /// `slew[v][rf][min/max]`.
    pub slew: Vec<[[F32; 2]; 2]>,
    /// Per edge: gate arcs `[arc][min/max]`; wire edges `[rf][min/max]`.
    pub delay: Vec<Vec<[F32; 2]>>,
}

pub open spec fn library_views(v: Seq<Library>) -> Seq<LibraryView> {
    Seq::new(v.len(), |i: int| v[i]@)
}

pub open spec fn list_views(v: Seq<Vec<usize>>) -> Seq<Seq<usize>> {
    Seq::new(v.len(), |i: int| v[i]@)
}

/// What a graph is, its slews and delays aside.
#[verifier::ext_equal]
pub struct GraphView {
    pub libs: Seq<LibraryView>,
    pub netlist: NetlistView,
    pub vertices: Seq<VertexView>,
    pub edges: Seq<Edge>,
    pub in_edges: Seq<Seq<usize>>,
    pub out_edges: Seq<Seq<usize>>,
    pub vertex_net: Seq<Option<usize>>,
}

impl<'a> View for Graph<'a> {
    type V = GraphView;

    open spec fn view(&self) -> GraphView {
        GraphView {
            libs: library_views(self.libs@),
            netlist: self.netlist@,
            vertices: vertex_views(self.vertices@),
            edges: self.edges@,
            in_edges: list_views(self.in_edges@),
            out_edges: list_views(self.out_edges@),
            vertex_net: self.vertex_net@,
        }
    }
}

/// Slews per vertex, `[v][rf][min/max]`, and delays per edge: gate arcs `[e][arc][min/max]`, wire
/// edges `[e][rf][min/max]`.
#[verifier::ext_equal]
pub struct Times {
    pub slew: Seq<Seq<Seq<F32>>>,
    pub delay: Seq<Seq<Seq<F32>>>,
}

pub open spec fn slew_views(v: Seq<[[F32; 2]; 2]>) -> Seq<Seq<Seq<F32>>> {
    Seq::new(v.len(), |i: int| liberty::corners(v[i]))
}

pub open spec fn pair_views(v: Seq<[F32; 2]>) -> Seq<Seq<F32>> {
    Seq::new(v.len(), |i: int| v[i]@)
}

pub open spec fn arc_delay_views(v: Seq<Vec<[F32; 2]>>) -> Seq<Seq<Seq<F32>>> {
    Seq::new(v.len(), |i: int| pair_views(v[i]@))
}

impl<'a> Graph<'a> {
    pub open spec fn times(self) -> Times {
        Times { slew: slew_views(self.slew@), delay: arc_delay_views(self.delay@) }
    }
}

/// The first library with a cell of a name.
pub open spec fn library_with(libs: Seq<LibraryView>, cell: Seq<char>) -> Option<usize>
    decreases libs.len(),
{
    if libs.len() == 0 {
        None
    } else {
        let before = library_with(libs.drop_last(), cell);
        if before is Some {
            before
        } else if libs.last().cells.contains_key(cell) {
            Some((libs.len() - 1) as usize)
        } else {
            None
        }
    }
}

/// The vertices of an instance's pins, behind `done`: inputs are loads, outputs and tristates
/// drivers, others have none; a bidirect pin is refused.
pub open spec fn pin_vertices(
    i: int,
    inst: Seq<char>,
    lib: usize,
    cell: Seq<char>,
    ports: Seq<PortView>,
    done: Seq<VertexView>,
) -> Result<Seq<VertexView>, Seq<char>>
    decreases ports.len(),
{
    if ports.len() == 0 {
        Ok(done)
    } else {
        let p = ports[0];
        let v = VertexView {
            name: netlist::path_name(inst, p.name),
            conn: ConnView::Inst(i, p.name),
            is_driver: !(p.direction is Input),
            lib: Some(lib),
            cell: Some(cell),
            port: Some(p.name),
        };
        match p.direction {
            Direction::Bidirect => Err(inst + "/"@ + p.name + ": bidirect pins are not modelled"@),
            Direction::Internal => pin_vertices(i, inst, lib, cell, ports.skip(1), done),
            Direction::Unknown => pin_vertices(i, inst, lib, cell, ports.skip(1), done),
            _ => pin_vertices(i, inst, lib, cell, ports.skip(1), done.push(v)),
        }
    }
}

/// The vertices of the instances from the `i`th on, behind `done`; a cell in no library (tap, fill,
/// decap) has nothing to time.
pub open spec fn inst_vertices(
    libs: Seq<LibraryView>,
    insts: Seq<(Seq<char>, Seq<char>)>,
    i: int,
    done: Seq<VertexView>,
) -> Result<Seq<VertexView>, Seq<char>>
    decreases insts.len() - i,
{
    if i < 0 || i >= insts.len() {
        Ok(done)
    } else {
        let (name, cell) = insts[i];
        match library_with(libs, cell) {
            None => inst_vertices(libs, insts, i + 1, done),
            Some(lib) => match pin_vertices(i, name, lib, cell, libs[lib as int].cells[cell].ports, done) {
                Err(e) => Err(e),
                Ok(next) => inst_vertices(libs, insts, i + 1, next),
            },
        }
    }
}

/// The vertices of the ports from the `i`th on, behind `done`; a bidirect port is refused.
pub open spec fn port_vertices(ports: Seq<(Seq<char>, PortDir)>, i: int, done: Seq<VertexView>) -> Result<
    Seq<VertexView>,
    Seq<char>,
>
    decreases ports.len() - i,
{
    if i < 0 || i >= ports.len() {
        Ok(done)
    } else {
        let (name, dir) = ports[i];
        if dir is Inout {
            Err("port "@ + name + ": bidirect ports are not modelled"@)
        } else {
            port_vertices(
                ports,
                i + 1,
                done.push(
                    VertexView {
                        name,
                        conn: ConnView::Port(i),
                        is_driver: dir is Input,
                        lib: None,
                        cell: None,
                        port: None,
                    },
                ),
            )
        }
    }
}

pub open spec fn all_vertices(libs: Seq<LibraryView>, n: NetlistView) -> Result<Seq<VertexView>, Seq<char>> {
    match inst_vertices(libs, n.insts, 0, Seq::empty()) {
        Err(e) => Err(e),
        Ok(v) => port_vertices(n.ports, 0, v),
    }
}

/// Vertices by name, the last of a name kept.
pub open spec fn name_index(vertices: Seq<VertexView>) -> Map<Seq<char>, usize>
    decreases vertices.len(),
{
    if vertices.len() == 0 {
        Map::empty()
    } else {
        name_index(vertices.drop_last()).insert(vertices.last().name, (vertices.len() - 1) as usize)
    }
}

/// An instance's vertices by port, the last of a port kept.
pub open spec fn pin_index(vertices: Seq<VertexView>, i: int) -> Map<Seq<char>, usize>
    decreases vertices.len(),
{
    if vertices.len() == 0 {
        Map::empty()
    } else {
        let before = pin_index(vertices.drop_last(), i);
        match vertices.last().conn {
            ConnView::Inst(k, p) if k == i => before.insert(p, (vertices.len() - 1) as usize),
            _ => before,
        }
    }
}

/// Gate edges of one instance's arc sets from the `k`th on, behind `done`: one per arc set with
/// arcs and a role that is timed, between two of its vertices.
pub open spec fn cell_edges(pins: Map<Seq<char>, usize>, sets: Seq<ArcSetView>, k: int, done: Seq<Edge>) -> Seq<Edge>
    decreases sets.len() - k,
{
    if k < 0 || k >= sets.len() {
        done
    } else {
        let set = sets[k];
        if set.role is Other || set.arcs.len() == 0 || !pins.contains_key(set.from) || !pins.contains_key(set.to) {
            cell_edges(pins, sets, k + 1, done)
        } else {
            cell_edges(
                pins,
                sets,
                k + 1,
                done.push(
                    Edge { from: pins[set.from], to: pins[set.to], kind: EdgeKind::Gate { set: k as usize } },
                ),
            )
        }
    }
}

/// Gate edges of the instances from the `i`th on, behind `done`.
pub open spec fn gate_edges(
    libs: Seq<LibraryView>,
    insts: Seq<(Seq<char>, Seq<char>)>,
    vertices: Seq<VertexView>,
    i: int,
    done: Seq<Edge>,
) -> Seq<Edge>
    decreases insts.len() - i,
{
    if i < 0 || i >= insts.len() {
        done
    } else {
        let cell = insts[i].1;
        gate_edges(
            libs,
            insts,
            vertices,
            i + 1,
            match library_with(libs, cell) {
                None => done,
                Some(lib) => cell_edges(
                    pin_index(vertices, i),
                    libs[lib as int].cells[cell].arc_sets,
                    0,
                    done,
                ),
            },
        )
    }
}

/// The vertices of pins, in their order; a pin without one is left out.
pub open spec fn vertices_of(n: NetlistView, index: Map<Seq<char>, usize>, pins: Seq<ConnView>) -> Seq<usize>
    decreases pins.len(),
{
    if pins.len() == 0 {
        Seq::empty()
    } else {
        let before = vertices_of(n, index, pins.drop_last());
        let name = n.pin_name(pins.last());
        if index.contains_key(name) {
            before.push(index[name])
        } else {
            before
        }
    }
}

/// Those among vertices that are drivers, or those that are not.
pub open spec fn with_drive(vertices: Seq<VertexView>, vs: Seq<usize>, drive: bool) -> Seq<usize>
    decreases vs.len(),
{
    if vs.len() == 0 {
        Seq::empty()
    } else {
        let before = with_drive(vertices, vs.drop_last(), drive);
        if vertices[vs.last() as int].is_driver == drive {
            before.push(vs.last())
        } else {
            before
        }
    }
}

/// The wire edges from a driver to loads.
pub open spec fn wires_to(driver: usize, loads: Seq<usize>) -> Seq<Edge> {
    Seq::new(loads.len(), |i: int| Edge { from: driver, to: loads[i], kind: EdgeKind::Wire })
}

/// The wire edges of the nets from the `i`th on, behind `done`; a net of several drivers is
/// refused.
pub open spec fn wire_edges(n: NetlistView, vertices: Seq<VertexView>, i: int, done: Seq<Edge>) -> Result<
    Seq<Edge>,
    Seq<char>,
>
    decreases n.nets.len() - i,
{
    if i < 0 || i >= n.nets.len() {
        Ok(done)
    } else {
        let vs = vertices_of(n, name_index(vertices), n.nets[i].pins);
        let drivers = with_drive(vertices, vs, true);
        if drivers.len() > 1 {
            Err("net "@ + n.nets[i].name + ": multiple drivers are not modelled"@)
        } else {
            wire_edges(
                n,
                vertices,
                i + 1,
                if drivers.len() == 1 {
                    done + wires_to(drivers[0], with_drive(vertices, vs, false))
                } else {
                    done
                },
            )
        }
    }
}

/// Every vertex among `vs` on net `n`.
pub open spec fn on_net(nets: Seq<Option<usize>>, vs: Seq<usize>, n: usize) -> Seq<Option<usize>>
    decreases vs.len(),
{
    if vs.len() == 0 {
        nets
    } else {
        on_net(nets, vs.drop_last(), n).update(vs.last() as int, Some(n))
    }
}

/// The net of each vertex among the first `i` nets, the last one that has it.
pub open spec fn vertex_nets(n: NetlistView, vertices: Seq<VertexView>, i: int) -> Seq<Option<usize>>
    decreases i,
{
    if i <= 0 {
        Seq::new(vertices.len(), |v: int| None)
    } else {
        on_net(
            vertex_nets(n, vertices, i - 1),
            vertices_of(n, name_index(vertices), n.nets[i - 1].pins),
            (i - 1) as usize,
        )
    }
}

/// The edges that end (`into`) or start at a vertex, in order.
pub open spec fn edges_at(edges: Seq<Edge>, v: int, into: bool) -> Seq<usize>
    decreases edges.len(),
{
    if edges.len() == 0 {
        Seq::empty()
    } else {
        let before = edges_at(edges.drop_last(), v, into);
        let e = edges.last();
        if v == if into {
            e.to
        } else {
            e.from
        } {
            before.push((edges.len() - 1) as usize)
        } else {
            before
        }
    }
}

/// The edges at a vertex are those that end there, or start there, each once.
pub proof fn lemma_edges_at(edges: Seq<Edge>, v: int, into: bool)
    requires
        edges.len() <= usize::MAX,
    ensures
        ({
            let list = edges_at(edges, v, into);
            &&& all_below(list, edges.len())
            &&& list.no_duplicates()
            &&& forall|i: int|
                0 <= i < list.len() ==> v == (if into {
                    edges[#[trigger] list[i] as int].to
                } else {
                    edges[list[i] as int].from
                })
            &&& forall|e: int|
                0 <= e < edges.len() && v == (if into {
                    (#[trigger] edges[e]).to
                } else {
                    edges[e].from
                }) ==> list.contains(e as usize)
        }),
    decreases edges.len(),
{
    if edges.len() > 0 {
        let before = edges_at(edges.drop_last(), v, into);
        let list = edges_at(edges, v, into);
        lemma_edges_at(edges.drop_last(), v, into);
        let last = edges.len() - 1;
        assert forall|e: int|
            0 <= e < edges.len() && v == (if into {
                (#[trigger] edges[e]).to
            } else {
                edges[e].from
            }) implies list.contains(e as usize) by {
            if e < last {
                assert(edges.drop_last()[e] == edges[e]);
                assert(before.contains(e as usize));
                let i = choose|i: int| 0 <= i < before.len() && before[i] == e as usize;
                assert(list[i] == e as usize);
            } else {
                assert(list[before.len() as int] == e as usize);
            }
        }
        assert forall|i: int| 0 <= i < list.len() implies v == (if into {
            edges[#[trigger] list[i] as int].to
        } else {
            edges[list[i] as int].from
        }) by {
            if i < before.len() {
                assert(list[i] == before[i]);
                assert(edges.drop_last()[before[i] as int] == edges[list[i] as int]);
            }
        }
    }
}

/// The graph of a netlist, or why it is refused.
pub open spec fn graph_of(libs: Seq<LibraryView>, n: NetlistView) -> Result<GraphView, Seq<char>> {
    match all_vertices(libs, n) {
        Err(e) => Err(e),
        Ok(vertices) => match wire_edges(
            n,
            vertices,
            0,
            gate_edges(libs, n.insts, vertices, 0, Seq::empty()),
        ) {
            Err(e) => Err(e),
            Ok(edges) => Ok(
                GraphView {
                    libs,
                    netlist: n,
                    vertices,
                    edges,
                    in_edges: Seq::new(vertices.len(), |v: int| edges_at(edges, v, true)),
                    out_edges: Seq::new(vertices.len(), |v: int| edges_at(edges, v, false)),
                    vertex_net: vertex_nets(n, vertices, n.nets.len() as int),
                },
            ),
        },
    }
}

pub open spec fn vertex_fits(libs: Seq<LibraryView>, insts: Seq<(Seq<char>, Seq<char>)>, v: VertexView) -> bool {
    match v.conn {
        ConnView::Inst(i, p) => {
            &&& 0 <= i < insts.len()
            &&& v.lib is Some
            &&& v.lib == library_with(libs, insts[i].1)
            &&& v.cell == Some(insts[i].1)
            &&& v.port == Some(p)
        },
        ConnView::Port(_) => v.lib is None && v.cell is None && v.port is None,
    }
}

pub open spec fn vertices_fit(
    libs: Seq<LibraryView>,
    insts: Seq<(Seq<char>, Seq<char>)>,
    vertices: Seq<VertexView>,
) -> bool {
    forall|v: int| 0 <= v < vertices.len() ==> vertex_fits(libs, insts, #[trigger] vertices[v])
}

pub(crate) proof fn lemma_library_with(libs: Seq<LibraryView>, cell: Seq<char>)
    requires
        libs.len() <= usize::MAX,
    ensures
        library_with(libs, cell) matches Some(l) ==> l < libs.len() && libs[l as int].cells.contains_key(cell),
        library_with(libs, cell) is None ==> forall|l: int|
            0 <= l < libs.len() ==> !(#[trigger] libs[l]).cells.contains_key(cell),
    decreases libs.len(),
{
    if libs.len() > 0 {
        lemma_library_with(libs.drop_last(), cell);
        if library_with(libs.drop_last(), cell) is None {
            assert forall|l: int| 0 <= l < libs.len() - 1 implies !(#[trigger] libs[l]).cells.contains_key(
                cell,
            ) by {
                assert(libs.drop_last()[l] == libs[l]);
            }
        }
    }
}

proof fn lemma_pin_vertices(
    libs: Seq<LibraryView>,
    insts: Seq<(Seq<char>, Seq<char>)>,
    i: int,
    lib: usize,
    ports: Seq<PortView>,
    done: Seq<VertexView>,
)
    requires
        0 <= i < insts.len(),
        library_with(libs, insts[i].1) == Some(lib),
        vertices_fit(libs, insts, done),
    ensures
        pin_vertices(i, insts[i].0, lib, insts[i].1, ports, done) matches Ok(v) ==> vertices_fit(libs, insts, v),
    decreases ports.len(),
{
    if ports.len() > 0 {
        let p = ports[0];
        let v = VertexView {
            name: netlist::path_name(insts[i].0, p.name),
            conn: ConnView::Inst(i, p.name),
            is_driver: !(p.direction is Input),
            lib: Some(lib),
            cell: Some(insts[i].1),
            port: Some(p.name),
        };
        lemma_pin_vertices(libs, insts, i, lib, ports.skip(1), done);
        lemma_pin_vertices(libs, insts, i, lib, ports.skip(1), done.push(v));
    }
}

proof fn lemma_inst_vertices(
    libs: Seq<LibraryView>,
    insts: Seq<(Seq<char>, Seq<char>)>,
    i: int,
    done: Seq<VertexView>,
)
    requires
        vertices_fit(libs, insts, done),
    ensures
        inst_vertices(libs, insts, i, done) matches Ok(v) ==> vertices_fit(libs, insts, v),
    decreases insts.len() - i,
{
    if 0 <= i < insts.len() {
        match library_with(libs, insts[i].1) {
            None => lemma_inst_vertices(libs, insts, i + 1, done),
            Some(lib) => {
                let ports = libs[lib as int].cells[insts[i].1].ports;
                lemma_pin_vertices(libs, insts, i, lib, ports, done);
                match pin_vertices(i, insts[i].0, lib, insts[i].1, ports, done) {
                    Err(_) => {},
                    Ok(next) => lemma_inst_vertices(libs, insts, i + 1, next),
                }
            },
        }
    }
}

proof fn lemma_port_vertices(
    libs: Seq<LibraryView>,
    insts: Seq<(Seq<char>, Seq<char>)>,
    ports: Seq<(Seq<char>, PortDir)>,
    i: int,
    done: Seq<VertexView>,
)
    requires
        vertices_fit(libs, insts, done),
    ensures
        port_vertices(ports, i, done) matches Ok(v) ==> vertices_fit(libs, insts, v),
    decreases ports.len() - i,
{
    if 0 <= i < ports.len() {
        let v = VertexView {
            name: ports[i].0,
            conn: ConnView::Port(i),
            is_driver: ports[i].1 is Input,
            lib: None,
            cell: None,
            port: None,
        };
        lemma_port_vertices(libs, insts, ports, i + 1, done.push(v));
    }
}

pub(crate) proof fn lemma_all_vertices(libs: Seq<LibraryView>, n: NetlistView)
    ensures
        all_vertices(libs, n) matches Ok(v) ==> vertices_fit(libs, n.insts, v),
{
    lemma_inst_vertices(libs, n.insts, 0, Seq::empty());
    match inst_vertices(libs, n.insts, 0, Seq::empty()) {
        Err(_) => {},
        Ok(v) => lemma_port_vertices(libs, n.insts, n.ports, 0, v),
    }
}

pub(crate) proof fn lemma_name_index(vertices: Seq<VertexView>, name: Seq<char>)
    requires
        vertices.len() <= usize::MAX,
    ensures
        name_index(vertices).contains_key(name) ==> {
            let v = name_index(vertices)[name];
            v < vertices.len() && vertices[v as int].name == name
        },
    decreases vertices.len(),
{
    if vertices.len() > 0 {
        lemma_name_index(vertices.drop_last(), name);
    }
}

pub(crate) proof fn lemma_pin_index(vertices: Seq<VertexView>, i: int, port: Seq<char>)
    requires
        vertices.len() <= usize::MAX,
    ensures
        pin_index(vertices, i).contains_key(port) ==> {
            let v = pin_index(vertices, i)[port];
            v < vertices.len() && vertices[v as int].conn == ConnView::Inst(i, port)
        },
    decreases vertices.len(),
{
    if vertices.len() > 0 {
        lemma_pin_index(vertices.drop_last(), i, port);
    }
}

impl GraphView {
    /// The cell of an instance's vertex.
    pub open spec fn cell_of(self, v: int) -> CellView {
        self.libs[self.vertices[v].lib->0 as int].cells[self.vertices[v].cell->0]
    }

    /// A vertex of an instance has its cell in its library.
    pub open spec fn vertex_valid(self, v: int) -> bool {
        let x = self.vertices[v];
        x.lib is Some ==> {
            &&& (x.lib->0) < self.libs.len()
            &&& x.cell is Some
            &&& self.libs[x.lib->0 as int].cells.contains_key(x.cell->0)
        }
    }

    /// An edge has its ends among the vertices; a gate edge its arc set in the cell of its target, a
    /// wire a driver and a load.
    pub open spec fn edge_valid(self, e: Edge) -> bool {
        &&& e.from < self.vertices.len()
        &&& e.to < self.vertices.len()
        &&& match e.kind {
            EdgeKind::Gate { set } => {
                &&& self.vertices[e.to as int].lib is Some
                &&& set < self.cell_of(e.to as int).arc_sets.len()
            },
            EdgeKind::Wire => self.vertices[e.from as int].is_driver && !self.vertices[e.to as int].is_driver,
        }
    }

    pub open spec fn edges_valid(self, edges: Seq<Edge>) -> bool {
        forall|e: int| 0 <= e < edges.len() ==> self.edge_valid(#[trigger] edges[e])
    }

    pub open spec fn valid(self) -> bool {
        let n = self.vertices.len();
        &&& n <= usize::MAX
        &&& self.edges.len() <= usize::MAX
        &&& self.netlist.valid()
        &&& self.vertex_net.len() == n
        &&& self.in_edges == Seq::new(n, |v: int| edges_at(self.edges, v, true))
        &&& self.out_edges == Seq::new(n, |v: int| edges_at(self.edges, v, false))
        &&& forall|v: int| 0 <= v < n ==> #[trigger] self.vertex_valid(v)
        &&& self.edges_valid(self.edges)
        &&& nets_below(self.vertex_net, self.netlist.nets.len())
    }

    pub open spec fn libs_valid(self) -> bool {
        forall|l: int| 0 <= l < self.libs.len() ==> (#[trigger] self.libs[l]).timed()
    }

    /// Every arc of a graph goes between two transitions.
    pub proof fn lemma_arc_timed(self, e: int, k: int)
        requires
            self.valid(),
            self.libs_valid(),
            0 <= e < self.edges.len(),
            self.edges[e].kind is Gate,
            0 <= k < self.arc_set(e).arcs.len(),
        ensures
            self.arc_set(e).arcs[k].timed(),
    {
        let v = self.edges[e].to as int;
        assert(self.edge_valid(self.edges[e]));
        assert(self.vertex_valid(v));
        let lib = self.libs[self.vertices[v].lib->0 as int];
        assert(lib.timed());
        let set = self.edges[e].kind->set as int;
        assert(lib.cells[self.vertices[v].cell->0].arc_sets[set].arcs[k].timed());
    }

    /// The arc set of a gate edge.
    pub open spec fn arc_set(self, e: int) -> ArcSetView {
        self.cell_of(self.edges[e].to as int).arc_sets[self.edges[e].kind->set as int]
    }

    /// The role of a gate edge.
    pub open spec fn role(self, e: int) -> Option<Role> {
        if self.edges[e].kind is Gate {
            Some(self.arc_set(e).role)
        } else {
            None
        }
    }

    /// A timing check.
    pub open spec fn checks(self, e: int) -> bool {
        self.role(e) matches Some(r) && is_check(r)
    }

    /// An edge along which times propagate: every edge but timing checks.
    pub open spec fn propagates(self, e: int) -> bool {
        0 <= e < self.edges.len() && !self.checks(e)
    }
}

pub open spec fn is_check(r: Role) -> bool {
    r is Setup || r is Hold || r is Recovery || r is Removal
}

proof fn lemma_cell_edges(
    g: GraphView,
    pins: Map<Seq<char>, usize>,
    sets: Seq<ArcSetView>,
    k: int,
    done: Seq<Edge>,
)
    requires
        sets.len() <= usize::MAX,
        forall|p: Seq<char>|
            pins.contains_key(p) ==> {
                let v = #[trigger] pins[p];
                v < g.vertices.len() && g.vertices[v as int].lib is Some && g.cell_of(v as int).arc_sets == sets
            },
        g.edges_valid(done),
    ensures
        g.edges_valid(cell_edges(pins, sets, k, done)),
    decreases sets.len() - k,
{
    if 0 <= k < sets.len() {
        let set = sets[k];
        let skip = set.role is Other || set.arcs.len() == 0 || !pins.contains_key(set.from) || !pins.contains_key(
            set.to,
        );
        if skip {
            lemma_cell_edges(g, pins, sets, k + 1, done);
        } else {
            let e = Edge { from: pins[set.from], to: pins[set.to], kind: EdgeKind::Gate { set: k as usize } };
            lemma_cell_edges(g, pins, sets, k + 1, done.push(e));
        }
    }
}

/// Every cell has fewer arc sets than an index can hold.
pub open spec fn libraries_fit(libs: Seq<LibraryView>) -> bool {
    &&& libs.len() <= usize::MAX
    &&& forall|l: int, c: Seq<char>|
        0 <= l < libs.len() && libs[l].cells.contains_key(c) ==> (#[trigger] libs[l].cells[c]).arc_sets.len()
            <= usize::MAX
}

proof fn lemma_gate_edges(g: GraphView, i: int, done: Seq<Edge>)
    requires
        libraries_fit(g.libs),
        g.vertices.len() <= usize::MAX,
        vertices_fit(g.libs, g.netlist.insts, g.vertices),
        g.edges_valid(done),
    ensures
        g.edges_valid(gate_edges(g.libs, g.netlist.insts, g.vertices, i, done)),
    decreases g.netlist.insts.len() - i,
{
    if 0 <= i < g.netlist.insts.len() {
        let cell = g.netlist.insts[i].1;
        match library_with(g.libs, cell) {
            None => lemma_gate_edges(g, i + 1, done),
            Some(lib) => {
                lemma_library_with(g.libs, cell);
                let pins = pin_index(g.vertices, i);
                let sets = g.libs[lib as int].cells[cell].arc_sets;
                assert forall|p: Seq<char>| pins.contains_key(p) implies {
                    let v = #[trigger] pins[p];
                    v < g.vertices.len() && g.vertices[v as int].lib is Some && g.cell_of(v as int).arc_sets == sets
                } by {
                    lemma_pin_index(g.vertices, i, p);
                    assert(vertex_fits(g.libs, g.netlist.insts, g.vertices[pins[p] as int]));
                }
                lemma_cell_edges(g, pins, sets, 0, done);
                lemma_gate_edges(g, i + 1, cell_edges(pins, sets, 0, done));
            },
        }
    }
}

pub open spec fn all_below(vs: Seq<usize>, n: nat) -> bool {
    forall|i: int| 0 <= i < vs.len() ==> (#[trigger] vs[i]) < n
}

pub(crate) proof fn lemma_vertices_of(n: NetlistView, vertices: Seq<VertexView>, pins: Seq<ConnView>)
    requires
        vertices.len() <= usize::MAX,
    ensures
        all_below(vertices_of(n, name_index(vertices), pins), vertices.len()),
    decreases pins.len(),
{
    if pins.len() > 0 {
        lemma_vertices_of(n, vertices, pins.drop_last());
        lemma_name_index(vertices, n.pin_name(pins.last()));
    }
}

pub(crate) proof fn lemma_with_drive(vertices: Seq<VertexView>, vs: Seq<usize>, drive: bool)
    ensures
        forall|i: int|
            0 <= i < with_drive(vertices, vs, drive).len() ==> vs.contains(
                #[trigger] with_drive(vertices, vs, drive)[i],
            ) && vertices[with_drive(vertices, vs, drive)[i] as int].is_driver == drive,
    decreases vs.len(),
{
    if vs.len() > 0 {
        lemma_with_drive(vertices, vs.drop_last(), drive);
        let before = with_drive(vertices, vs.drop_last(), drive);
        let all = with_drive(vertices, vs, drive);
        assert forall|i: int| 0 <= i < all.len() implies vs.contains(#[trigger] all[i])
            && vertices[all[i] as int].is_driver == drive by {
            if i < before.len() {
                assert(all[i] == before[i]);
                let j = choose|j: int| 0 <= j < vs.drop_last().len() && vs.drop_last()[j] == before[i];
                assert(vs[j] == before[i]);
            } else {
                assert(vs[vs.len() - 1] == all[i]);
            }
        }
    }
}

proof fn lemma_wire_edges(g: GraphView, i: int, done: Seq<Edge>)
    requires
        g.vertices.len() <= usize::MAX,
        g.edges_valid(done),
    ensures
        wire_edges(g.netlist, g.vertices, i, done) matches Ok(edges) ==> g.edges_valid(edges),
    decreases g.netlist.nets.len() - i,
{
    if 0 <= i < g.netlist.nets.len() {
        let pins = g.netlist.nets[i].pins;
        let vs = vertices_of(g.netlist, name_index(g.vertices), pins);
        let drivers = with_drive(g.vertices, vs, true);
        let loads = with_drive(g.vertices, vs, false);
        lemma_vertices_of(g.netlist, g.vertices, pins);
        lemma_with_drive(g.vertices, vs, true);
        lemma_with_drive(g.vertices, vs, false);
        if drivers.len() == 1 {
            let wires = wires_to(drivers[0], loads);
            let next = done + wires;
            assert(vs.contains(drivers[0]));
            assert forall|e: int| 0 <= e < next.len() implies g.edge_valid(#[trigger] next[e]) by {
                if e >= done.len() {
                    assert(next[e] == wires[e - done.len()]);
                    assert(vs.contains(loads[e - done.len()]));
                }
            }
            lemma_wire_edges(g, i + 1, next);
        } else {
            lemma_wire_edges(g, i + 1, done);
        }
    }
}

pub open spec fn nets_below(nets: Seq<Option<usize>>, limit: nat) -> bool {
    forall|v: int| 0 <= v < nets.len() ==> (#[trigger] nets[v] matches Some(k) ==> k < limit)
}

proof fn lemma_on_net(nets: Seq<Option<usize>>, vs: Seq<usize>, n: usize, limit: nat)
    requires
        n < limit,
        all_below(vs, nets.len()),
        nets_below(nets, limit),
    ensures
        on_net(nets, vs, n).len() == nets.len(),
        nets_below(on_net(nets, vs, n), limit),
    decreases vs.len(),
{
    if vs.len() > 0 {
        lemma_on_net(nets, vs.drop_last(), n, limit);
    }
}

proof fn lemma_vertex_nets(n: NetlistView, vertices: Seq<VertexView>, i: int)
    requires
        0 <= i <= n.nets.len() <= usize::MAX,
        vertices.len() <= usize::MAX,
    ensures
        vertex_nets(n, vertices, i).len() == vertices.len(),
        nets_below(vertex_nets(n, vertices, i), n.nets.len()),
    decreases i,
{
    if i > 0 {
        lemma_vertex_nets(n, vertices, i - 1);
        lemma_vertices_of(n, vertices, n.nets[i - 1].pins);
        lemma_on_net(
            vertex_nets(n, vertices, i - 1),
            vertices_of(n, name_index(vertices), n.nets[i - 1].pins),
            (i - 1) as usize,
            n.nets.len(),
        );
    }
}

/// A graph that was built is valid: every edge has its ends and its arc set, every wire goes from a
/// driver to a load, and every vertex lists the edges that start and end at it.
pub proof fn lemma_built_graph_is_valid(libs: Seq<LibraryView>, n: NetlistView)
    requires
        libraries_fit(libs),
        n.valid(),
        n.nets.len() <= usize::MAX,
        graph_of(libs, n) matches Ok(g) && g.vertices.len() <= usize::MAX && g.edges.len() <= usize::MAX,
    ensures
        graph_of(libs, n)->Ok_0.valid(),
{
    let g = graph_of(libs, n)->Ok_0;
    lemma_all_vertices(libs, n);
    lemma_gate_edges(g, 0, Seq::empty());
    lemma_wire_edges(g, 0, gate_edges(libs, n.insts, g.vertices, 0, Seq::empty()));
    lemma_vertex_nets(n, g.vertices, n.nets.len() as int);
    assert forall|v: int| 0 <= v < g.vertices.len() implies #[trigger] g.vertex_valid(v) by {
        assert(vertex_fits(libs, n.insts, g.vertices[v]));
        match g.vertices[v].conn {
            ConnView::Inst(i, _) => lemma_library_with(libs, n.insts[i].1),
            ConnView::Port(_) => {},
        }
    }
}

proof fn lemma_libraries_fit(libs: &[Library])
    ensures
        libraries_fit(library_views(libs@)),
{
    let views = library_views(libs@);
    assert(libs@.len() == libs.len());
    assert forall|l: int, c: Seq<char>| 0 <= l < views.len() && views[l].cells.contains_key(c) implies (
    #[trigger] views[l].cells[c]).arc_sets.len() <= usize::MAX by {
        let cell = libs@[l].cells@[c];
        assert(views[l].cells[c] == cell@);
        assert(cell.arc_sets.len() == cell.arc_sets@.len());
    }
}

fn find_cell(libs: &[Library], name: &str) -> (r: Option<usize>)
    ensures
        r == library_with(library_views(libs@), name@),
{
    let ghost all = library_views(libs@);
    let mut i: usize = 0;
    assert(all.take(0) =~= Seq::<LibraryView>::empty());
    while i < libs.len()
        invariant
            i <= libs@.len(),
            all == library_views(libs@),
            library_with(all.take(i as int), name@) is None,
        decreases libs@.len() - i,
    {
        assert(all.take(i + 1).drop_last() =~= all.take(i as int));
        if libs[i].cells.contains_key(name) {
            proof {
                lemma_first_library(all, i as int, name@);
            }
            return Some(i);
        }
        i = i + 1;
    }
    assert(all.take(i as int) =~= all);
    None
}

proof fn lemma_first_library(libs: Seq<LibraryView>, i: int, name: Seq<char>)
    requires
        0 <= i < libs.len() <= usize::MAX,
        library_with(libs.take(i), name) is None,
        libs[i].cells.contains_key(name),
    ensures
        library_with(libs, name) == Some(i as usize),
    decreases libs.len(),
{
    if i == libs.len() - 1 {
        assert(libs.drop_last() =~= libs.take(i));
    } else {
        assert(libs.drop_last().take(i) =~= libs.take(i));
        lemma_first_library(libs.drop_last(), i, name);
    }
}

/// A cell that its library has.
pub(crate) fn cell<'a>(libs: &'a [Library], lib: usize, name: &str) -> (r: &'a Cell)
    requires
        lib < libs@.len(),
        library_views(libs@)[lib as int].cells.contains_key(name@),
    ensures
        r@ == library_views(libs@)[lib as int].cells[name@],
{
    match libs[lib].cells.get(name) {
        Some(c) => c,
        None => {
            assert(false);
            vstd::pervasive::unreached()
        },
    }
}

/// Vertices, by name and by pin of each instance.
struct Builder {
    vertices: Vec<Vertex>,
    index: StringHashMap<usize>,
    pins: Vec<StringHashMap<usize>>,
}

impl Builder {
    spec fn valid(self) -> bool {
        let views = vertex_views(self.vertices@);
        &&& self.index@ == name_index(views)
        &&& forall|i: int| 0 <= i < self.pins@.len() ==> (#[trigger] self.pins@[i])@ == pin_index(views, i)
    }

    fn new(insts: usize) -> (r: Builder)
        ensures
            r.valid(),
            r.vertices@.len() == 0,
            r.pins@.len() == insts,
    {
        let mut pins: Vec<StringHashMap<usize>> = Vec::new();
        let mut i: usize = 0;
        while i < insts
            invariant
                i <= insts,
                pins@.len() == i,
                forall|j: int| 0 <= j < i ==> (#[trigger] pins@[j])@ == Map::<Seq<char>, usize>::empty(),
            decreases insts - i,
        {
            pins.push(StringHashMap::new());
            i = i + 1;
        }
        let b: Builder = Builder { vertices: Vec::new(), index: StringHashMap::new(), pins };
        assert(vertex_views(b.vertices@) =~= Seq::<VertexView>::empty());
        b
    }

    fn push(&mut self, v: Vertex)
        requires
            old(self).valid(),
            v@.conn matches ConnView::Inst(i, _) ==> i < old(self).pins@.len(),
        ensures
            final(self).valid(),
            vertex_views(final(self).vertices@) == vertex_views(old(self).vertices@).push(v@),
            final(self).pins@.len() == old(self).pins@.len(),
    {
        let ghost before = vertex_views(self.vertices@);
        let ghost next = before.push(v@);
        let ghost old_pins = self.pins@;
        let k: usize = self.vertices.len();
        assert(next.drop_last() =~= before);
        self.index.insert(v.name.clone(), k);
        match &v.conn {
            Conn::Inst(i, p) => {
                self.pins[*i].insert(p.clone(), k);
            },
            Conn::Port(_) => {},
        }
        assert forall|i: int| 0 <= i < self.pins@.len() implies (#[trigger] self.pins@[i])@ == pin_index(
            next,
            i,
        ) by {
            assert(old_pins[i]@ == pin_index(before, i));
        }
        let ghost seen = v;
        self.vertices.push(v);
        assert(vertex_views(self.vertices@) =~= next);
    }

    fn add_pins(&mut self, i: usize, inst: &str, lib: usize, cname: &str, c: &Cell) -> (r: Result<(), String>)
        requires
            old(self).valid(),
            i < old(self).pins@.len(),
        ensures
            final(self).valid(),
            final(self).pins@.len() == old(self).pins@.len(),
            ({
                let want = pin_vertices(
                    i as int,
                    inst@,
                    lib,
                    cname@,
                    c@.ports,
                    vertex_views(old(self).vertices@),
                );
                match r {
                    Ok(_) => want == Ok::<Seq<VertexView>, Seq<char>>(vertex_views(final(self).vertices@)),
                    Err(e) => want == Err::<Seq<VertexView>, Seq<char>>(e@),
                }
            }),
    {
        let ghost ports = c@.ports;
        let ghost whole = pin_vertices(i as int, inst@, lib, cname@, ports, vertex_views(self.vertices@));
        let mut k: usize = 0;
        assert(ports.skip(0) =~= ports);
        while k < c.ports.len()
            invariant
                k <= c.ports@.len(),
                ports == c@.ports,
                self.valid(),
                i < self.pins@.len(),
                self.pins@.len() == old(self).pins@.len(),
                whole == pin_vertices(i as int, inst@, lib, cname@, ports, vertex_views(old(self).vertices@)),
                pin_vertices(i as int, inst@, lib, cname@, ports.skip(k as int), vertex_views(self.vertices@))
                    == whole,
            decreases c.ports@.len() - k,
        {
            assert(ports.skip(k as int).skip(1) =~= ports.skip(k + 1));
            let p: &liberty::Port = &c.ports[k];
            assert(ports.skip(k as int)[0] == p@);
            k = k + 1;
            let is_driver: bool = match p.direction {
                Direction::Input => false,
                Direction::Output | Direction::Tristate => true,
                Direction::Bidirect => {
                    let mut e: String = netlist::path_text(inst, p.name.as_str());
                    e.append(": bidirect pins are not modelled");
                    return Err(e);
                },
                _ => {
                    continue ;
                },
            };
            let v: Vertex = Vertex {
                name: netlist::path_text(inst, p.name.as_str()),
                conn: Conn::Inst(i, p.name.clone()),
                is_driver,
                lib: Some(lib),
                cell: Some(cname.to_owned()),
                port: Some(p.name.clone()),
            };
            self.push(v);
        }
        Ok(())
    }

    fn add_insts(&mut self, libs: &[Library], n: &Netlist) -> (r: Result<(), String>)
        requires
            old(self).valid(),
            old(self).vertices@.len() == 0,
            old(self).pins@.len() == n.insts@.len(),
        ensures
            final(self).valid(),
            final(self).pins@.len() == old(self).pins@.len(),
            ({
                let want = inst_vertices(library_views(libs@), n@.insts, 0, Seq::empty());
                match r {
                    Ok(_) => want == Ok::<Seq<VertexView>, Seq<char>>(vertex_views(final(self).vertices@)),
                    Err(e) => want == Err::<Seq<VertexView>, Seq<char>>(e@),
                }
            }),
    {
        let ghost views = library_views(libs@);
        let mut i: usize = 0;
        assert(vertex_views(self.vertices@) =~= Seq::<VertexView>::empty());
        while i < n.insts.len()
            invariant
                i <= n.insts@.len(),
                views == library_views(libs@),
                self.valid(),
                self.pins@.len() == n.insts@.len(),
                self.pins@.len() == old(self).pins@.len(),
                inst_vertices(views, n@.insts, i as int, vertex_views(self.vertices@)) == inst_vertices(
                    views,
                    n@.insts,
                    0,
                    Seq::empty(),
                ),
            decreases n.insts@.len() - i,
        {
            let name: &str = n.insts[i].0.as_str();
            let cname: &str = n.insts[i].1.as_str();
            // A physical-only cell (tap, fill, decap) has no liberty cell and nothing to time.
            match find_cell(libs, cname) {
                Some(lib) => {
                    proof {
                        lemma_libraries_fit(libs);
                        lemma_library_with(views, cname@);
                    }
                    let c: &Cell = cell(libs, lib, cname);
                    self.add_pins(i, name, lib, cname, c)?;
                },
                None => {},
            }
            i = i + 1;
        }
        Ok(())
    }

    fn add_ports(&mut self, n: &Netlist) -> (r: Result<(), String>)
        requires
            old(self).valid(),
        ensures
            final(self).valid(),
            final(self).pins@.len() == old(self).pins@.len(),
            ({
                let want = port_vertices(n@.ports, 0, vertex_views(old(self).vertices@));
                match r {
                    Ok(_) => want == Ok::<Seq<VertexView>, Seq<char>>(vertex_views(final(self).vertices@)),
                    Err(e) => want == Err::<Seq<VertexView>, Seq<char>>(e@),
                }
            }),
    {
        let mut i: usize = 0;
        while i < n.ports.len()
            invariant
                i <= n.ports@.len(),
                self.valid(),
                self.pins@.len() == old(self).pins@.len(),
                port_vertices(n@.ports, i as int, vertex_views(self.vertices@)) == port_vertices(
                    n@.ports,
                    0,
                    vertex_views(old(self).vertices@),
                ),
            decreases n.ports@.len() - i,
        {
            let name: &String = &n.ports[i].0;
            let dir: PortDir = n.ports[i].1;
            if dir == PortDir::Inout {
                let mut e: String = text::join("port ", name.as_str());
                e.append(": bidirect ports are not modelled");
                return Err(e);
            }
            let v: Vertex = Vertex {
                name: name.clone(),
                conn: Conn::Port(i),
                is_driver: dir == PortDir::Input,
                lib: None,
                cell: None,
                port: None,
            };
            self.push(v);
            i = i + 1;
        }
        Ok(())
    }

    fn add_cell_edges(&self, i: usize, c: &Cell, edges: &mut Vec<Edge>)
        requires
            self.valid(),
            i < self.pins@.len(),
        ensures
            final(edges)@ == cell_edges(
                pin_index(vertex_views(self.vertices@), i as int),
                c@.arc_sets,
                0,
                old(edges)@,
            ),
    {
        let ghost pins = pin_index(vertex_views(self.vertices@), i as int);
        let ghost sets = c@.arc_sets;
        let mut k: usize = 0;
        while k < c.arc_sets.len()
            invariant
                k <= c.arc_sets@.len(),
                i < self.pins@.len(),
                sets == c@.arc_sets,
                self.pins@[i as int]@ == pins,
                cell_edges(pins, sets, k as int, edges@) == cell_edges(pins, sets, 0, old(edges)@),
            decreases c.arc_sets@.len() - k,
        {
            let set: &ArcSet = &c.arc_sets[k];
            assert(sets[k as int] == set@);
            if set.role != Role::Other && set.arcs.len() > 0 {
                match (self.pins[i].get(set.from.as_str()), self.pins[i].get(set.to.as_str())) {
                    (Some(f), Some(t)) => {
                        edges.push(Edge { from: *f, to: *t, kind: EdgeKind::Gate { set: k } });
                    },
                    _ => {},
                }
            }
            k = k + 1;
        }
    }

    fn add_gate_edges(&self, libs: &[Library], n: &Netlist) -> (edges: Vec<Edge>)
        requires
            self.valid(),
            self.pins@.len() == n.insts@.len(),
        ensures
            edges@ == gate_edges(
                library_views(libs@),
                n@.insts,
                vertex_views(self.vertices@),
                0,
                Seq::empty(),
            ),
    {
        let ghost views = library_views(libs@);
        let ghost vertices = vertex_views(self.vertices@);
        let mut edges: Vec<Edge> = Vec::new();
        let mut i: usize = 0;
        assert(edges@ =~= Seq::<Edge>::empty());
        while i < n.insts.len()
            invariant
                i <= n.insts@.len(),
                views == library_views(libs@),
                vertices == vertex_views(self.vertices@),
                self.valid(),
                self.pins@.len() == n.insts@.len(),
                gate_edges(views, n@.insts, vertices, i as int, edges@) == gate_edges(
                    views,
                    n@.insts,
                    vertices,
                    0,
                    Seq::empty(),
                ),
            decreases n.insts@.len() - i,
        {
            let cname: &str = n.insts[i].1.as_str();
            match find_cell(libs, cname) {
                Some(lib) => {
                    proof {
                        lemma_libraries_fit(libs);
                        lemma_library_with(views, cname@);
                    }
                    self.add_cell_edges(i, cell(libs, lib, cname), &mut edges);
                },
                None => {},
            }
            i = i + 1;
        }
        edges
    }

    /// The vertices of a net's pins, in order.
    fn net_vertices(&self, n: &Netlist, k: usize) -> (r: Vec<usize>)
        requires
            self.valid(),
            n@.valid(),
            k < n.nets@.len(),
        ensures
            r@ == vertices_of(n@, name_index(vertex_views(self.vertices@)), n@.nets[k as int].pins),
            all_below(r@, self.vertices@.len()),
    {
        let ghost index = name_index(vertex_views(self.vertices@));
        let ghost pins = n@.nets[k as int].pins;
        let mut vs: Vec<usize> = Vec::new();
        let mut i: usize = 0;
        proof {
            assert(self.vertices@.len() == self.vertices.len());
            lemma_vertices_of(n@, vertex_views(self.vertices@), pins);
        }
        assert(pins.take(0) =~= Seq::<ConnView>::empty());
        while i < n.nets[k].pins.len()
            invariant
                k < n.nets@.len(),
                n@.valid(),
                self.index@ == index,
                pins == n@.nets[k as int].pins,
                i <= pins.len(),
                vs@ == vertices_of(n@, index, pins.take(i as int)),
            decreases pins.len() - i,
        {
            assert(pins.take(i + 1).drop_last() =~= pins.take(i as int));
            let c: &Conn = &n.nets[k].pins[i];
            assert(n@.nets[k as int].pins[i as int] == c@);
            let name: String = n.pin_name(c);
            match self.index.get(name.as_str()) {
                Some(v) => {
                    vs.push(*v);
                },
                None => {},
            }
            i = i + 1;
        }
        assert(pins.take(i as int) =~= pins);
        vs
    }

    fn select(&self, vs: &Vec<usize>, drive: bool) -> (r: Vec<usize>)
        requires
            all_below(vs@, self.vertices@.len()),
        ensures
            r@ == with_drive(vertex_views(self.vertices@), vs@, drive),
    {
        let ghost vertices = vertex_views(self.vertices@);
        let mut out: Vec<usize> = Vec::new();
        let mut i: usize = 0;
        assert(vs@.take(0) =~= Seq::<usize>::empty());
        while i < vs.len()
            invariant
                i <= vs@.len(),
                vertices == vertex_views(self.vertices@),
                all_below(vs@, self.vertices@.len()),
                out@ == with_drive(vertices, vs@.take(i as int), drive),
            decreases vs@.len() - i,
        {
            assert(vs@.take(i + 1).drop_last() =~= vs@.take(i as int));
            let v: usize = vs[i];
            if self.vertices[v].is_driver == drive {
                out.push(v);
            }
            i = i + 1;
        }
        assert(vs@.take(i as int) =~= vs@);
        out
    }

    fn add_wires(&self, n: &Netlist, edges: &mut Vec<Edge>) -> (r: Result<Vec<Option<usize>>, String>)
        requires
            self.valid(),
            n@.valid(),
        ensures
            ({
                let vertices = vertex_views(self.vertices@);
                let want = wire_edges(n@, vertices, 0, old(edges)@);
                match r {
                    Ok(nets) => want == Ok::<Seq<Edge>, Seq<char>>(final(edges)@) && nets@ == vertex_nets(
                        n@,
                        vertices,
                        n@.nets.len() as int,
                    ),
                    Err(e) => want == Err::<Seq<Edge>, Seq<char>>(e@),
                }
            }),
    {
        let ghost vertices = vertex_views(self.vertices@);
        let mut nets: Vec<Option<usize>> = Vec::new();
        let mut i: usize = 0;
        while i < self.vertices.len()
            invariant
                i <= self.vertices@.len(),
                nets@ == Seq::new(i as nat, |v: int| None::<usize>),
            decreases self.vertices@.len() - i,
        {
            nets.push(None);
            i = i + 1;
            assert(nets@ =~= Seq::new(i as nat, |v: int| None::<usize>));
        }
        assert(nets@ =~= vertex_nets(n@, vertices, 0));
        let mut k: usize = 0;
        while k < n.nets.len()
            invariant
                k <= n.nets@.len(),
                n@.valid(),
                self.valid(),
                vertices == vertex_views(self.vertices@),
                nets@.len() == self.vertices@.len(),
                nets@ == vertex_nets(n@, vertices, k as int),
                wire_edges(n@, vertices, k as int, edges@) == wire_edges(n@, vertices, 0, old(edges)@),
            decreases n.nets@.len() - k,
        {
            let vs: Vec<usize> = self.net_vertices(n, k);
            let ghost before = nets@;
            let mut j: usize = 0;
            assert(vs@.take(0) =~= Seq::<usize>::empty());
            while j < vs.len()
                invariant
                    j <= vs@.len(),
                    nets@.len() == self.vertices@.len(),
                    all_below(vs@, self.vertices@.len()),
                    nets@ == on_net(before, vs@.take(j as int), k),
                decreases vs@.len() - j,
            {
                assert(vs@.take(j + 1).drop_last() =~= vs@.take(j as int));
                nets.set(vs[j], Some(k));
                j = j + 1;
            }
            assert(vs@.take(j as int) =~= vs@);
            let drivers: Vec<usize> = self.select(&vs, true);
            if drivers.len() > 1 {
                let mut e: String = text::join("net ", n.nets[k].name.as_str());
                e.append(": multiple drivers are not modelled");
                return Err(e);
            }
            if drivers.len() == 1 {
                let loads: Vec<usize> = self.select(&vs, false);
                let ghost wires = wires_to(drivers@[0], loads@);
                let ghost start = edges@;
                let mut l: usize = 0;
                assert(start + wires.take(0) =~= start);
                while l < loads.len()
                    invariant
                        l <= loads@.len(),
                        drivers@.len() == 1,
                        wires == wires_to(drivers@[0], loads@),
                        edges@ == start + wires.take(l as int),
                    decreases loads@.len() - l,
                {
                    edges.push(Edge { from: drivers[0], to: loads[l], kind: EdgeKind::Wire });
                    l = l + 1;
                    assert(edges@ =~= start + wires.take(l as int));
                }
                assert(wires.take(l as int) =~= wires);
            }
            k = k + 1;
        }
        Ok(nets)
    }
}

/// The edges at each vertex.
fn list_edges(edges: &Vec<Edge>, n: usize, into: bool) -> (r: Vec<Vec<usize>>)
    requires
        forall|e: int| 0 <= e < edges@.len() ==> (#[trigger] edges@[e]).from < n && edges@[e].to < n,
    ensures
        list_views(r@) == Seq::new(n as nat, |v: int| edges_at(edges@, v, into)),
{
    let mut lists: Vec<Vec<usize>> = Vec::new();
    let mut i: usize = 0;
    while i < n
        invariant
            i <= n,
            lists@.len() == i,
            forall|v: int| 0 <= v < i ==> (#[trigger] lists@[v])@ == Seq::<usize>::empty(),
        decreases n - i,
    {
        lists.push(Vec::new());
        i = i + 1;
    }
    let mut e: usize = 0;
    assert(edges@.take(0) =~= Seq::<Edge>::empty());
    while e < edges.len()
        invariant
            e <= edges@.len(),
            lists@.len() == n,
            forall|e: int| 0 <= e < edges@.len() ==> (#[trigger] edges@[e]).from < n && edges@[e].to < n,
            forall|v: int|
                0 <= v < n ==> (#[trigger] lists@[v])@ == edges_at(edges@.take(e as int), v, into),
        decreases edges@.len() - e,
    {
        let at: usize = if into {
            edges[e].to
        } else {
            edges[e].from
        };
        let ghost before = lists@;
        lists[at].push(e);
        assert forall|v: int| 0 <= v < n implies (#[trigger] lists@[v])@ == edges_at(
            edges@.take(e + 1),
            v,
            into,
        ) by {
            assert(edges@.take(e + 1).drop_last() =~= edges@.take(e as int));
            assert(before[v]@ == edges_at(edges@.take(e as int), v, into));
        }
        e = e + 1;
    }
    assert(edges@.take(e as int) =~= edges@);
    assert(list_views(lists@) =~= Seq::new(n as nat, |v: int| edges_at(edges@, v, into)));
    lists
}

/// Some pin of an instance is bidirect.
pub open spec fn has_bidirect(libs: Seq<LibraryView>, insts: Seq<(Seq<char>, Seq<char>)>, i: int) -> bool {
    library_with(libs, insts[i].1) matches Some(l) && any_bidirect(libs[l as int].cells[insts[i].1].ports)
}

pub open spec fn any_bidirect(ports: Seq<PortView>) -> bool {
    exists|k: int| 0 <= k < ports.len() && (#[trigger] ports[k]).direction is Bidirect
}

/// The drivers of net `i`.
pub open spec fn drivers_of(n: NetlistView, vertices: Seq<VertexView>, i: int) -> Seq<usize> {
    with_drive(vertices, vertices_of(n, name_index(vertices), n.nets[i].pins), true)
}

proof fn lemma_pin_vertices_accepted(
    i: int,
    inst: Seq<char>,
    lib: usize,
    cell: Seq<char>,
    ports: Seq<PortView>,
    done: Seq<VertexView>,
)
    ensures
        pin_vertices(i, inst, lib, cell, ports, done) is Ok <==> !any_bidirect(ports),
    decreases ports.len(),
{
    if ports.len() > 0 {
        let p = ports[0];
        let rest = ports.skip(1);
        let v = VertexView {
            name: netlist::path_name(inst, p.name),
            conn: ConnView::Inst(i, p.name),
            is_driver: !(p.direction is Input),
            lib: Some(lib),
            cell: Some(cell),
            port: Some(p.name),
        };
        lemma_pin_vertices_accepted(i, inst, lib, cell, rest, done);
        lemma_pin_vertices_accepted(i, inst, lib, cell, rest, done.push(v));
        if any_bidirect(rest) {
            let k = choose|k: int| 0 <= k < rest.len() && (#[trigger] rest[k]).direction is Bidirect;
            assert(ports[k + 1].direction is Bidirect);
        }
        if any_bidirect(ports) && !(p.direction is Bidirect) {
            let k = choose|k: int| 0 <= k < ports.len() && (#[trigger] ports[k]).direction is Bidirect;
            assert(rest[k - 1].direction is Bidirect);
        }
    }
}

proof fn lemma_inst_vertices_accepted(
    libs: Seq<LibraryView>,
    insts: Seq<(Seq<char>, Seq<char>)>,
    i: int,
    done: Seq<VertexView>,
)
    requires
        0 <= i <= insts.len(),
    ensures
        inst_vertices(libs, insts, i, done) is Ok <==> forall|j: int|
            i <= j < insts.len() ==> !#[trigger] has_bidirect(libs, insts, j),
    decreases insts.len() - i,
{
    if i < insts.len() {
        let (name, cell) = insts[i];
        match library_with(libs, cell) {
            None => {
                assert(!has_bidirect(libs, insts, i));
                lemma_inst_vertices_accepted(libs, insts, i + 1, done);
            },
            Some(lib) => {
                let ports = libs[lib as int].cells[cell].ports;
                lemma_pin_vertices_accepted(i, name, lib, cell, ports, done);
                assert(has_bidirect(libs, insts, i) == any_bidirect(ports));
                if let Ok(next) = pin_vertices(i, name, lib, cell, ports, done) {
                    lemma_inst_vertices_accepted(libs, insts, i + 1, next);
                }
            },
        }
    }
}

proof fn lemma_port_vertices_accepted(ports: Seq<(Seq<char>, PortDir)>, i: int, done: Seq<VertexView>)
    requires
        0 <= i <= ports.len(),
    ensures
        port_vertices(ports, i, done) is Ok <==> forall|j: int|
            i <= j < ports.len() ==> !((#[trigger] ports[j]).1 is Inout),
    decreases ports.len() - i,
{
    if i < ports.len() {
        let (name, dir) = ports[i];
        lemma_port_vertices_accepted(
            ports,
            i + 1,
            done.push(
                VertexView {
                    name,
                    conn: ConnView::Port(i),
                    is_driver: dir is Input,
                    lib: None,
                    cell: None,
                    port: None,
                },
            ),
        );
        assert(ports[i].1 is Inout == dir is Inout);
    }
}

proof fn lemma_wire_edges_accepted(n: NetlistView, vertices: Seq<VertexView>, i: int, done: Seq<Edge>)
    requires
        0 <= i <= n.nets.len(),
    ensures
        wire_edges(n, vertices, i, done) is Ok <==> forall|j: int|
            i <= j < n.nets.len() ==> (#[trigger] drivers_of(n, vertices, j)).len() <= 1,
    decreases n.nets.len() - i,
{
    if i < n.nets.len() {
        let vs = vertices_of(n, name_index(vertices), n.nets[i].pins);
        let drivers = drivers_of(n, vertices, i);
        let next = if drivers.len() == 1 {
            done + wires_to(drivers[0], with_drive(vertices, vs, false))
        } else {
            done
        };
        lemma_wire_edges_accepted(n, vertices, i + 1, next);
    }
}

/// A netlist is refused exactly for a bidirect pin of a timed instance, a bidirect port, or a net of
/// several drivers.
pub proof fn lemma_refused_netlists(libs: Seq<LibraryView>, n: NetlistView)
    ensures
        graph_of(libs, n) is Err <==> {
            ||| exists|i: int| 0 <= i < n.insts.len() && #[trigger] has_bidirect(libs, n.insts, i)
            ||| exists|i: int| 0 <= i < n.ports.len() && (#[trigger] n.ports[i]).1 is Inout
            ||| exists|i: int|
                0 <= i < n.nets.len() && (#[trigger] drivers_of(n, all_vertices(libs, n)->Ok_0, i)).len() > 1
        },
{
    lemma_inst_vertices_accepted(libs, n.insts, 0, Seq::empty());
    if let Ok(v) = inst_vertices(libs, n.insts, 0, Seq::empty()) {
        lemma_port_vertices_accepted(n.ports, 0, v);
        if let Ok(vertices) = all_vertices(libs, n) {
            lemma_wire_edges_accepted(
                n,
                vertices,
                0,
                gate_edges(libs, n.insts, vertices, 0, Seq::empty()),
            );
        }
    }
}

impl Times {
    /// A place for every value of a graph.
    pub open spec fn fits(self, g: GraphView) -> bool {
        &&& self.slew.len() == g.vertices.len()
        &&& self.delay.len() == g.edges.len()
        &&& forall|v: int|
            0 <= v < self.slew.len() ==> (#[trigger] self.slew[v]).len() == 2 && self.slew[v][0].len() == 2
                && self.slew[v][1].len() == 2
        &&& forall|e: int|
            0 <= e < self.delay.len() ==> (#[trigger] self.delay[e]).len() == match g.edges[e].kind {
                EdgeKind::Gate { .. } => g.arc_set(e).arcs.len(),
                EdgeKind::Wire => 2,
            }
        &&& forall|e: int, k: int|
            0 <= e < self.delay.len() && 0 <= k < self.delay[e].len() ==> (#[trigger] self.delay[e][k]).len()
                == 2
    }
}

/// Nothing computed yet: every slew and delay 0, a delay per arc of a gate edge and per transition
/// of a wire.
pub open spec fn zero_times(g: GraphView) -> Times {
    let zeros = seq![F32(0), F32(0)];
    Times {
        slew: Seq::new(g.vertices.len(), |v: int| seq![zeros, zeros]),
        delay: Seq::new(
            g.edges.len(),
            |e: int|
                Seq::new(
                    match g.edges[e].kind {
                        EdgeKind::Gate { .. } => g.arc_set(e).arcs.len(),
                        EdgeKind::Wire => 2,
                    },
                    |k: int| zeros,
                ),
        ),
    }
}

/// The zeros of a graph fit it.
pub proof fn lemma_zero_times_fit(g: GraphView)
    ensures
        zero_times(g).fits(g),
{
}

fn zero_pairs(n: usize) -> (r: Vec<[F32; 2]>)
    ensures
        pair_views(r@) == Seq::new(n as nat, |k: int| seq![F32(0), F32(0)]),
{
    let mut v: Vec<[F32; 2]> = Vec::new();
    let mut i: usize = 0;
    while i < n
        invariant
            i <= n,
            v@.len() == i,
            forall|k: int| 0 <= k < i ==> (#[trigger] v@[k])@ =~= seq![F32(0), F32(0)],
        decreases n - i,
    {
        v.push([F32(0), F32(0)]);
        i = i + 1;
    }
    assert(pair_views(v@) =~= Seq::new(n as nat, |k: int| seq![F32(0), F32(0)]));
    v
}

impl<'a> Graph<'a> {
    /// Vertices for every signal pin of every instance and every port, gate edges for every arc
    /// set between two of an instance's vertices, wire edges from each driver to each load of a
    /// net.
    pub fn build(libs: &'a [Library], netlist: &'a Netlist) -> (r: Result<Graph<'a>, String>)
        requires
            netlist@.valid(),
        ensures
            match r {
                Ok(g) => {
                    &&& graph_of(library_views(libs@), netlist@) == Ok::<GraphView, Seq<char>>(g@)
                    &&& g@.valid()
                    &&& g.times() == zero_times(g@)
                    &&& g.times().fits(g@)
                },
                Err(e) => graph_of(library_views(libs@), netlist@) == Err::<GraphView, Seq<char>>(e@),
            },
    {
        let mut b: Builder = Builder::new(netlist.insts.len());
        b.add_insts(libs, netlist)?;
        b.add_ports(netlist)?;
        let mut edges: Vec<Edge> = b.add_gate_edges(libs, netlist);
        let vertex_net: Vec<Option<usize>> = b.add_wires(netlist, &mut edges)?;
        let n: usize = b.vertices.len();
        let ghost want = graph_of(library_views(libs@), netlist@)->Ok_0;
        proof {
            assert(edges@.len() == edges.len());
            assert(netlist.nets@.len() == netlist.nets.len());
            lemma_libraries_fit(libs);
            lemma_built_graph_is_valid(library_views(libs@), netlist@);
            assert forall|e: int| 0 <= e < edges@.len() implies (#[trigger] edges@[e]).from < n && edges@[e].to
                < n by {
                assert(want.edge_valid(want.edges[e]));
            }
        }
        let in_edges: Vec<Vec<usize>> = list_edges(&edges, n, true);
        let out_edges: Vec<Vec<usize>> = list_edges(&edges, n, false);
        let mut g: Graph<'a> = Graph {
            libs,
            netlist,
            vertices: b.vertices,
            edges,
            in_edges,
            out_edges,
            vertex_net,
            slew: Vec::new(),
            delay: Vec::new(),
        };
        assert(g@ =~= want);
        g.clear_times();
        proof {
            lemma_zero_times_fit(g@);
        }
        Ok(g)
    }

    /// Sets every slew and delay to 0.
    fn clear_times(&mut self)
        requires
            old(self)@.valid(),
        ensures
            final(self)@ == old(self)@,
            final(self).times() == zero_times(old(self)@),
    {
        let ghost view = self@;
        let mut slew: Vec<[[F32; 2]; 2]> = Vec::new();
        let mut i: usize = 0;
        while i < self.vertices.len()
            invariant
                i <= self.vertices@.len(),
                slew@.len() == i,
                forall|v: int|
                    0 <= v < i ==> liberty::corners(#[trigger] slew@[v]) =~= seq![
                        seq![F32(0), F32(0)],
                        seq![F32(0), F32(0)],
                    ],
            decreases self.vertices@.len() - i,
        {
            let zeros: [[F32; 2]; 2] = [[F32(0), F32(0)], [F32(0), F32(0)]];
            assert(zeros[0]@ =~= seq![F32(0), F32(0)]);
            assert(zeros[1]@ =~= seq![F32(0), F32(0)]);
            slew.push(zeros);
            i = i + 1;
        }
        let mut delay: Vec<Vec<[F32; 2]>> = Vec::new();
        let mut e: usize = 0;
        while e < self.edges.len()
            invariant
                e <= self.edges@.len(),
                view == self@,
                view.valid(),
                delay@.len() == e,
                forall|k: int|
                    0 <= k < e ==> pair_views((#[trigger] delay@[k])@) == zero_times(view).delay[k],
            decreases self.edges@.len() - e,
        {
            assert(view.edge_valid(view.edges[e as int]));
            let count: usize = match self.edges[e].kind {
                EdgeKind::Gate { set } => self.arc_set(e, set).arcs.len(),
                EdgeKind::Wire => 2,
            };
            delay.push(zero_pairs(count));
            e = e + 1;
        }
        self.slew = slew;
        self.delay = delay;
        assert(self.times().slew =~= zero_times(view).slew);
        assert(self.times().delay =~= zero_times(view).delay);
    }

    /// The arc set of a gate edge.
    pub(crate) fn arc_set(&self, e: usize, set: usize) -> (r: &'a ArcSet)
        requires
            self@.valid(),
            e < self.edges@.len(),
            self.edges@[e as int].kind == (EdgeKind::Gate { set }),
        ensures
            r@ == self@.arc_set(e as int),
    {
        assert(self@.edge_valid(self@.edges[e as int]));
        let t: usize = self.edges[e].to;
        assert(self@.vertex_valid(t as int));
        let v: &Vertex = &self.vertices[t];
        assert(self@.vertices[t as int] == v@);
        match (&v.lib, &v.cell) {
            (Some(l), Some(c)) => {
                let found: &'a Cell = cell(self.libs, *l, c.as_str());
                assert(found@ == self@.cell_of(t as int));
                assert(found@.arc_sets[set as int] == found.arc_sets@[set as int]@);
                &found.arc_sets[set]
            },
            _ => {
                assert(false);
                vstd::pervasive::unreached()
            },
        }
    }

    pub fn is_check(&self, e: usize) -> (r: bool)
        requires
            self@.valid(),
            e < self.edges@.len(),
        ensures
            r == self@.checks(e as int),
    {
        match self.edges[e].kind {
            EdgeKind::Gate { set } => matches!(
                self.arc_set(e, set).role,
                Role::Setup | Role::Hold | Role::Recovery | Role::Removal
            ),
            EdgeKind::Wire => false,
        }
    }
}

} // verus!
