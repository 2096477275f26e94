//! What a timing graph is built from: an edge for every timed arc set of every instance, and a wire
//! from the driver of every net to each of its loads.

use vstd::prelude::*;
use crate::graph;
use crate::graph::{Edge, EdgeKind, GraphView, VertexView};
use crate::liberty::{ArcSetView, LibraryView};
use crate::netlist::{ConnView, NetlistView};

verus! {

/// Edges kept in front of others.
spec fn extends(a: Seq<Edge>, b: Seq<Edge>) -> bool {
    a.len() <= b.len() && forall|i: int| 0 <= i < a.len() ==> #[trigger] b[i] == a[i]
}

/// There is a vertex for a port of an instance.
pub open spec fn has_pin(vertices: Seq<VertexView>, i: int, port: Seq<char>) -> bool {
    exists|v: int| 0 <= v < vertices.len() && (#[trigger] vertices[v]).conn == ConnView::Inst(i, port)
}

proof fn lemma_pin_is_indexed(vertices: Seq<VertexView>, i: int, port: Seq<char>)
    requires
        vertices.len() <= usize::MAX,
    ensures
        has_pin(vertices, i, port) <==> graph::pin_index(vertices, i).contains_key(port),
    decreases vertices.len(),
{
    if vertices.len() > 0 {
        let less = vertices.drop_last();
        lemma_pin_is_indexed(less, i, port);
        if has_pin(less, i, port) {
            let v = choose|v: int| 0 <= v < less.len() && (#[trigger] less[v]).conn == ConnView::Inst(i, port);
            assert(vertices[v].conn == ConnView::Inst(i, port));
        }
        if has_pin(vertices, i, port) {
            let v = choose|v: int|
                0 <= v < vertices.len() && (#[trigger] vertices[v]).conn == ConnView::Inst(i, port);
            if v < less.len() {
                assert(less[v].conn == ConnView::Inst(i, port));
            }
        }
        if vertices.last().conn == ConnView::Inst(i, port) {
            assert(vertices[vertices.len() - 1].conn == ConnView::Inst(i, port));
        }
    }
}

/// An arc set is timed: it has arcs, and a role of its own.
pub open spec fn timed(set: ArcSetView) -> bool {
    !(set.role is Other) && set.arcs.len() > 0
}

/// Edge `e` is that of arc set `k` of instance `i`.
pub open spec fn edge_of_set(vertices: Seq<VertexView>, edge: Edge, i: int, set: ArcSetView, k: int) -> bool {
    &&& edge.kind == EdgeKind::Gate { set: k as usize }
    &&& edge.from < vertices.len()
    &&& edge.to < vertices.len()
    &&& vertices[edge.from as int].conn == ConnView::Inst(i, set.from)
    &&& vertices[edge.to as int].conn == ConnView::Inst(i, set.to)
}

/// One of the edges is that of arc set `k` of instance `i`.
pub open spec fn has_edge(vertices: Seq<VertexView>, edges: Seq<Edge>, i: int, set: ArcSetView, k: int) -> bool {
    exists|e: int| 0 <= e < edges.len() && edge_of_set(vertices, #[trigger] edges[e], i, set, k)
}

proof fn lemma_cell_edges(
    vertices: Seq<VertexView>,
    i: int,
    sets: Seq<ArcSetView>,
    k: int,
    done: Seq<Edge>,
    j: int,
)
    requires
        vertices.len() <= usize::MAX,
        0 <= k,
        0 <= j < sets.len(),
        timed(sets[j]),
        has_pin(vertices, i, sets[j].from),
        has_pin(vertices, i, sets[j].to),
    ensures
        ({
            let all = graph::cell_edges(graph::pin_index(vertices, i), sets, k, done);
            &&& extends(done, all)
            &&& k <= j ==> has_edge(vertices, all, i, sets[j], j)
        }),
    decreases sets.len() - k,
{
    let pins = graph::pin_index(vertices, i);
    if k < sets.len() {
        let set = sets[k];
        lemma_pin_is_indexed(vertices, i, set.from);
        lemma_pin_is_indexed(vertices, i, set.to);
        if set.role is Other || set.arcs.len() == 0 || !pins.contains_key(set.from) || !pins.contains_key(set.to) {
            lemma_cell_edges(vertices, i, sets, k + 1, done, j);
        } else {
            let edge = Edge { from: pins[set.from], to: pins[set.to], kind: EdgeKind::Gate { set: k as usize } };
            let next = done.push(edge);
            lemma_cell_edges(vertices, i, sets, k + 1, next, j);
            let all = graph::cell_edges(pins, sets, k, done);
            assert(extends(done, all)) by {
                assert forall|x: int| 0 <= x < done.len() implies #[trigger] all[x] == done[x] by {
                    assert(all[x] == next[x]);
                }
            }
            if k == j {
                graph::lemma_pin_index(vertices, i, set.from);
                graph::lemma_pin_index(vertices, i, set.to);
                assert(all[done.len() as int] == next[done.len() as int]);
                assert(edge_of_set(vertices, all[done.len() as int], i, sets[j], j));
            }
        }
    }
}

proof fn lemma_extends_through(a: Seq<Edge>, b: Seq<Edge>, c: Seq<Edge>)
    requires
        extends(a, b),
        extends(b, c),
    ensures
        extends(a, c),
{
    assert forall|i: int| 0 <= i < a.len() implies #[trigger] c[i] == a[i] by {
        assert(b[i] == a[i]);
    }
}

proof fn lemma_cell_edges_extend(pins: Map<Seq<char>, usize>, sets: Seq<ArcSetView>, k: int, done: Seq<Edge>)
    ensures
        extends(done, graph::cell_edges(pins, sets, k, done)),
    decreases sets.len() - k,
{
    if 0 <= k < sets.len() {
        let set = sets[k];
        if set.role is Other || set.arcs.len() == 0 || !pins.contains_key(set.from) || !pins.contains_key(set.to) {
            lemma_cell_edges_extend(pins, sets, k + 1, done);
        } else {
            let next = done.push(
                Edge { from: pins[set.from], to: pins[set.to], kind: EdgeKind::Gate { set: k as usize } },
            );
            lemma_cell_edges_extend(pins, sets, k + 1, next);
            lemma_extends_through(done, next, graph::cell_edges(pins, sets, k + 1, next));
        }
    }
}

proof fn lemma_gate_edges(
    libs: Seq<LibraryView>,
    insts: Seq<(Seq<char>, Seq<char>)>,
    vertices: Seq<VertexView>,
    i: int,
    done: Seq<Edge>,
    x: int,
    lib: usize,
    j: int,
)
    requires
        vertices.len() <= usize::MAX,
        0 <= i,
        0 <= x < insts.len(),
        graph::library_with(libs, insts[x].1) == Some(lib),
        0 <= j < libs[lib as int].cells[insts[x].1].arc_sets.len(),
        timed(libs[lib as int].cells[insts[x].1].arc_sets[j]),
        has_pin(vertices, x, libs[lib as int].cells[insts[x].1].arc_sets[j].from),
        has_pin(vertices, x, libs[lib as int].cells[insts[x].1].arc_sets[j].to),
    ensures
        ({
            let all = graph::gate_edges(libs, insts, vertices, i, done);
            let set = libs[lib as int].cells[insts[x].1].arc_sets[j];
            &&& extends(done, all)
            &&& i <= x ==> has_edge(vertices, all, x, set, j)
        }),
    decreases insts.len() - i,
{
    if i < insts.len() {
        let cell = insts[i].1;
        let next = match graph::library_with(libs, cell) {
            None => done,
            Some(l) => {
                let sets = libs[l as int].cells[cell].arc_sets;
                lemma_cell_edges_extend(graph::pin_index(vertices, i), sets, 0, done);
                graph::cell_edges(graph::pin_index(vertices, i), sets, 0, done)
            },
        };
        lemma_gate_edges(libs, insts, vertices, i + 1, next, x, lib, j);
        let all = graph::gate_edges(libs, insts, vertices, i + 1, next);
        lemma_extends_through(done, next, all);
        if i == x {
            let sets = libs[lib as int].cells[cell].arc_sets;
            lemma_cell_edges(vertices, i, sets, 0, done, j);
            let e = choose|e: int| 0 <= e < next.len() && edge_of_set(vertices, #[trigger] next[e], i, sets[j], j);
            assert(all[e] == next[e]);
        }
    }
}

proof fn lemma_wire_edges_extend(n: NetlistView, vertices: Seq<VertexView>, i: int, done: Seq<Edge>)
    ensures
        graph::wire_edges(n, vertices, i, done) matches Ok(all) ==> extends(done, all),
    decreases n.nets.len() - i,
{
    if 0 <= i < n.nets.len() {
        let vs = graph::vertices_of(n, graph::name_index(vertices), n.nets[i].pins);
        let drivers = graph::with_drive(vertices, vs, true);
        if drivers.len() <= 1 {
            let next = if drivers.len() == 1 {
                done + graph::wires_to(drivers[0], graph::with_drive(vertices, vs, false))
            } else {
                done
            };
            lemma_wire_edges_extend(n, vertices, i + 1, next);
            if let Ok(all) = graph::wire_edges(n, vertices, i + 1, next) {
                lemma_extends_through(done, next, all);
            }
        }
    }
}

/// Every timed arc set of an instance's cell, between pins that the instance has, is an edge of the
/// graph.
pub proof fn lemma_every_arc_set_is_an_edge(
    libs: Seq<LibraryView>,
    n: NetlistView,
    g: GraphView,
    i: int,
    lib: usize,
    j: int,
)
    requires
        graph::graph_of(libs, n) == Ok::<GraphView, Seq<char>>(g),
        g.vertices.len() <= usize::MAX,
        0 <= i < n.insts.len(),
        graph::library_with(libs, n.insts[i].1) == Some(lib),
        0 <= j < libs[lib as int].cells[n.insts[i].1].arc_sets.len(),
        timed(libs[lib as int].cells[n.insts[i].1].arc_sets[j]),
        has_pin(g.vertices, i, libs[lib as int].cells[n.insts[i].1].arc_sets[j].from),
        has_pin(g.vertices, i, libs[lib as int].cells[n.insts[i].1].arc_sets[j].to),
    ensures
        has_edge(g.vertices, g.edges, i, libs[lib as int].cells[n.insts[i].1].arc_sets[j], j),
{
    let gates = graph::gate_edges(libs, n.insts, g.vertices, 0, Seq::empty());
    lemma_gate_edges(libs, n.insts, g.vertices, 0, Seq::empty(), i, lib, j);
    lemma_wire_edges_extend(n, g.vertices, 0, gates);
    let set = libs[lib as int].cells[n.insts[i].1].arc_sets[j];
    let e = choose|e: int| 0 <= e < gates.len() && edge_of_set(g.vertices, #[trigger] gates[e], i, set, j);
    assert(g.edges[e] == gates[e]);
}

/// A vertex is that of a pin on a net.
pub open spec fn is_on(n: NetlistView, vertices: Seq<VertexView>, i: int, v: usize) -> bool {
    exists|p: int|
        0 <= p < n.nets[i].pins.len() && named(n, vertices, #[trigger] n.nets[i].pins[p], v)
}

/// A vertex is the one that a pin's name stands for.
pub open spec fn named(n: NetlistView, vertices: Seq<VertexView>, pin: ConnView, v: usize) -> bool {
    let index = graph::name_index(vertices);
    index.contains_key(n.pin_name(pin)) && index[n.pin_name(pin)] == v
}

proof fn lemma_vertices_of(n: NetlistView, vertices: Seq<VertexView>, pins: Seq<ConnView>, p: int, v: usize)
    requires
        0 <= p < pins.len(),
        named(n, vertices, pins[p], v),
    ensures
        graph::vertices_of(n, graph::name_index(vertices), pins).contains(v),
    decreases pins.len(),
{
    let index = graph::name_index(vertices);
    let before = graph::vertices_of(n, index, pins.drop_last());
    let all = graph::vertices_of(n, index, pins);
    if p < pins.len() - 1 {
        assert(pins.drop_last()[p] == pins[p]);
        lemma_vertices_of(n, vertices, pins.drop_last(), p, v);
        let i = before.index_of(v);
        assert(all[i] == v);
    } else {
        assert(all[all.len() - 1] == v);
    }
}

proof fn lemma_with_drive(vertices: Seq<VertexView>, vs: Seq<usize>, drive: bool, v: usize)
    requires
        vs.contains(v),
        vertices[v as int].is_driver == drive,
    ensures
        graph::with_drive(vertices, vs, drive).contains(v),
    decreases vs.len(),
{
    let less = vs.drop_last();
    let (before, all) = (graph::with_drive(vertices, less, drive), graph::with_drive(vertices, vs, drive));
    let i = vs.index_of(v);
    if i < less.len() {
        assert(less[i] == v);
        lemma_with_drive(vertices, less, drive, v);
        let k = before.index_of(v);
        assert(all[k] == v);
    } else {
        assert(all[all.len() - 1] == v);
    }
}

proof fn lemma_wire_edges(n: NetlistView, vertices: Seq<VertexView>, i: int, done: Seq<Edge>, x: int, d: usize, l: usize)
    requires
        0 <= i <= x < n.nets.len(),
        is_on(n, vertices, x, d),
        is_on(n, vertices, x, l),
        vertices[d as int].is_driver,
        !vertices[l as int].is_driver,
        graph::wire_edges(n, vertices, i, done) is Ok,
    ensures
        graph::wire_edges(n, vertices, i, done)->Ok_0.contains(Edge { from: d, to: l, kind: EdgeKind::Wire }),
    decreases n.nets.len() - i,
{
    let vs = graph::vertices_of(n, graph::name_index(vertices), n.nets[i].pins);
    let drivers = graph::with_drive(vertices, vs, true);
    let loads = graph::with_drive(vertices, vs, false);
    let next = if drivers.len() == 1 {
        done + graph::wires_to(drivers[0], loads)
    } else {
        done
    };
    if i < x {
        lemma_wire_edges(n, vertices, i + 1, next, x, d, l);
    } else {
        let p = choose|p: int| 0 <= p < n.nets[i].pins.len() && named(n, vertices, #[trigger] n.nets[i].pins[p], d);
        let q = choose|q: int| 0 <= q < n.nets[i].pins.len() && named(n, vertices, #[trigger] n.nets[i].pins[q], l);
        lemma_vertices_of(n, vertices, n.nets[i].pins, p, d);
        lemma_vertices_of(n, vertices, n.nets[i].pins, q, l);
        lemma_with_drive(vertices, vs, true, d);
        lemma_with_drive(vertices, vs, false, l);
        let a = drivers.index_of(d);
        assert(drivers[0] == d);
        let k = loads.index_of(l);
        let edge = Edge { from: d, to: l, kind: EdgeKind::Wire };
        assert(next[done.len() + k] == edge);
        lemma_wire_edges_extend(n, vertices, i + 1, next);
        let all = graph::wire_edges(n, vertices, i + 1, next)->Ok_0;
        assert(all[done.len() + k] == edge);
    }
}

/// On every net there is a wire from its driver to each of its loads.
pub proof fn lemma_every_load_is_wired(libs: Seq<LibraryView>, n: NetlistView, g: GraphView, i: int, d: usize, l: usize)
    requires
        graph::graph_of(libs, n) == Ok::<GraphView, Seq<char>>(g),
        0 <= i < n.nets.len(),
        is_on(n, g.vertices, i, d),
        is_on(n, g.vertices, i, l),
        g.vertices[d as int].is_driver,
        !g.vertices[l as int].is_driver,
    ensures
        g.edges.contains(Edge { from: d, to: l, kind: EdgeKind::Wire }),
{
    let gates = graph::gate_edges(libs, n.insts, g.vertices, 0, Seq::empty());
    lemma_wire_edges(n, g.vertices, 0, gates, i, d, l);
}

} // verus!
