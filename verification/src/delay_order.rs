//! Delay calculation does not depend on the topological order that vertices are visited in: a merge
//! only combines the arcs of one driver.

use vstd::prelude::*;
use crate::dcalc::DmpView;
use crate::delay_laws;
use crate::delays;
use crate::delays::{CalcView, Reduced, Run, Step};
use crate::float32::F32;
use crate::float64::F64;
use crate::graph;
use crate::graph::{Edge, EdgeKind, GraphView, Times, VertexView};
use crate::liberty::{ArcSetView, LibraryView};
use crate::netlist::NetlistView;
use crate::topology;

verus! {

/// A propagating gate edge goes from `u` to `v`.
pub open spec fn feeds(g: GraphView, u: int, v: int) -> bool {
    exists|e: int| #[trigger] g.propagates(e) && g.edges[e].kind is Gate && g.edges[e].from == u && g.edges[e].to == v
}

/// The vertices whose slews a visit of `v` reads or sets.
pub open spec fn near(g: GraphView, v: int, u: int) -> bool {
    u == v || delay_laws::wired(g, v, u) || feeds(g, u, v)
}

/// Times that are alike in all that a visit of `v` reads or sets.
pub open spec fn alike(g: GraphView, v: int, a: Times, b: Times) -> bool {
    &&& delay_laws::spans(a, g)
    &&& delay_laws::spans(b, g)
    &&& forall|u: int| 0 <= u < g.vertices.len() && near(g, v, u) ==> #[trigger] a.slew[u] == b.slew[u]
    &&& forall|e: int| 0 <= e < g.edges.len() && delay_laws::owner(g, e) == v ==> #[trigger] a.delay[e] == b.delay[e]
}

/// Steps that both went on, or both ended, with times alike.
pub open spec fn steps_alike(g: GraphView, v: int, a: Step, b: Step) -> bool {
    (a is Ok <==> b is Ok) && alike(g, v, delay_laws::times_of(a), delay_laws::times_of(b))
}

proof fn lemma_slew_alike(g: GraphView, v: int, a: Times, b: Times, u: int, rf: int, mm: int, x: F32)
    requires
        alike(g, v, a, b),
        0 <= u < g.vertices.len(),
        near(g, v, u),
    ensures
        alike(g, v, a.with_slew(u, rf, mm, x), b.with_slew(u, rf, mm, x)),
        alike(g, v, a.merge_slew(u, rf, mm, x), b.merge_slew(u, rf, mm, x)),
{
    let (p, q) = (a.with_slew(u, rf, mm, x), b.with_slew(u, rf, mm, x));
    assert(a.slew[u] == b.slew[u]);
    assert forall|w: int| 0 <= w < g.vertices.len() && near(g, v, w) implies #[trigger] p.slew[w] == q.slew[w] by {
        assert(a.slew[w] == b.slew[w]);
    }
    assert forall|e: int| 0 <= e < g.edges.len() && delay_laws::owner(g, e) == v implies #[trigger] p.delay[e]
        == q.delay[e] by {
        assert(a.delay[e] == b.delay[e]);
    }
}

proof fn lemma_delay_alike(g: GraphView, v: int, a: Times, b: Times, e: int, k: int, mm: int, x: F32)
    requires
        alike(g, v, a, b),
        0 <= e < g.edges.len(),
        delay_laws::owner(g, e) == v,
    ensures
        alike(g, v, a.with_delay(e, k, mm, x), b.with_delay(e, k, mm, x)),
        alike(g, v, a.merge_delay(e, k, mm, x), b.merge_delay(e, k, mm, x)),
{
    let (p, q) = (a.with_delay(e, k, mm, x), b.with_delay(e, k, mm, x));
    assert(a.delay[e] == b.delay[e]);
    assert forall|w: int| 0 <= w < g.vertices.len() && near(g, v, w) implies #[trigger] p.slew[w] == q.slew[w] by {
        assert(a.slew[w] == b.slew[w]);
    }
    assert forall|f: int| 0 <= f < g.edges.len() && delay_laws::owner(g, f) == v implies #[trigger] p.delay[f]
        == q.delay[f] by {
        assert(a.delay[f] == b.delay[f]);
    }
}

proof fn lemma_slews_alike(g: GraphView, v: int, a: Times, b: Times, u: int, pair: Seq<F32>)
    requires
        alike(g, v, a, b),
        0 <= u < g.vertices.len(),
    ensures
        alike(g, v, a.with_slews(u, pair), b.with_slews(u, pair)),
{
    let (p, q) = (a.with_slews(u, pair), b.with_slews(u, pair));
    assert forall|w: int| 0 <= w < g.vertices.len() && near(g, v, w) implies #[trigger] p.slew[w] == q.slew[w] by {
        assert(a.slew[w] == b.slew[w]);
    }
    assert forall|f: int| 0 <= f < g.edges.len() && delay_laws::owner(g, f) == v implies #[trigger] p.delay[f]
        == q.delay[f] by {
        assert(a.delay[f] == b.delay[f]);
    }
}

proof fn lemma_delays_alike(g: GraphView, v: int, a: Times, b: Times, e: int, pair: Seq<F32>)
    requires
        alike(g, v, a, b),
        0 <= e < g.edges.len(),
    ensures
        alike(g, v, a.with_delays(e, pair), b.with_delays(e, pair)),
{
    let (p, q) = (a.with_delays(e, pair), b.with_delays(e, pair));
    assert forall|w: int| 0 <= w < g.vertices.len() && near(g, v, w) implies #[trigger] p.slew[w] == q.slew[w] by {
        assert(a.slew[w] == b.slew[w]);
    }
    assert forall|f: int| 0 <= f < g.edges.len() && delay_laws::owner(g, f) == v implies #[trigger] p.delay[f]
        == q.delay[f] by {
        assert(a.delay[f] == b.delay[f]);
    }
}

/// The load of a wire of `v` is near it, and the wire its own.
proof fn lemma_wire_near(g: GraphView, v: int, wires: Seq<usize>, k: int)
    requires
        g.valid(),
        delay_laws::wires_from(g, v, wires),
        0 <= k < wires.len(),
    ensures
        0 <= wires[k] < g.edges.len(),
        g.edges[wires[k] as int].to < g.vertices.len(),
        near(g, v, g.edges[wires[k] as int].to as int),
        delay_laws::owner(g, wires[k] as int) == v,
{
    let w = wires[k] as int;
    assert(g.edge_valid(g.edges[w]));
    assert(delay_laws::wired(g, v, g.edges[w].to as int));
}

proof fn lemma_root_wires(
    c: CalcView,
    v: int,
    pe: Option<Reduced>,
    wires: Seq<usize>,
    k: int,
    rf: int,
    mm: int,
    a: Times,
    b: Times,
)
    requires
        c.g.valid(),
        delay_laws::wires_from(c.g, v, wires),
        alike(c.g, v, a, b),
    ensures
        alike(
            c.g,
            v,
            c.root_wires(pe, wires, k, rf, mm, a),
            c.root_wires(pe, wires, k, rf, mm, b),
        ),
    decreases wires.len() - k,
{
    if 0 <= k < wires.len() {
        let e = wires[k] as int;
        lemma_wire_near(c.g, v, wires, k);
        let load = c.g.edges[e].to as int;
        let ll = c.threshold_library(load);
        let wire = match delays::load_elmore(pe, c.g.vertices[load].name) {
            Some(el) => crate::dcalc::port_wire_delay_slew(
                F64(0),
                el,
                delays::input_thresholds(c.header(ll), rf),
                c.logs[ll as int].input[rf],
            ),
            None => (F64(0), F64(0)),
        };
        let (delay, slew) = c.adjust(0, load, rf, wire);
        lemma_slew_alike(c.g, v, a, b, load, rf, mm, slew.narrowed());
        lemma_delay_alike(
            c.g,
            v,
            a.with_slew(load, rf, mm, slew.narrowed()),
            b.with_slew(load, rf, mm, slew.narrowed()),
            e,
            rf,
            mm,
            delay.narrowed(),
        );
        lemma_root_wires(
            c,
            v,
            pe,
            wires,
            k + 1,
            rf,
            mm,
            c.root_wire(pe, e, rf, mm, a),
            c.root_wire(pe, e, rf, mm, b),
        );
    }
}

proof fn lemma_root_corners(c: CalcView, v: int, wires: Seq<usize>, corner: int, a: Times, b: Times)
    requires
        c.g.valid(),
        delay_laws::wires_from(c.g, v, wires),
        alike(c.g, v, a, b),
    ensures
        alike(c.g, v, c.root_corners(v, wires, corner, a), c.root_corners(v, wires, corner, b)),
    decreases 4 - corner,
{
    if 0 <= corner < 4 {
        let (rf, mm) = (corner / 2, corner % 2);
        let pe = c.reduce(v, rf, mm);
        lemma_root_wires(c, v, pe, wires, 0, rf, mm, a, b);
        lemma_root_corners(
            c,
            v,
            wires,
            corner + 1,
            c.root_wires(pe, wires, 0, rf, mm, a),
            c.root_wires(pe, wires, 0, rf, mm, b),
        );
    }
}

proof fn lemma_init_wires(c: CalcView, v: int, wires: Seq<usize>, k: int, a: Times, b: Times)
    requires
        c.g.valid(),
        delay_laws::wires_from(c.g, v, wires),
        alike(c.g, v, a, b),
    ensures
        alike(c.g, v, c.init_wires(wires, k, a), c.init_wires(wires, k, b)),
    decreases wires.len() - k,
{
    if 0 <= k < wires.len() {
        let e = wires[k] as int;
        lemma_wire_near(c.g, v, wires, k);
        let load = c.g.edges[e].to as int;
        let pair = delays::initial_pair();
        lemma_slews_alike(c.g, v, a, b, load, pair);
        let (p, q) = (a.with_slews(load, pair), b.with_slews(load, pair));
        lemma_delays_alike(c.g, v, p, q, e, pair);
        lemma_init_wires(c, v, wires, k + 1, p.with_delays(e, pair), q.with_delays(e, pair));
    }
}

proof fn lemma_arc_wires(
    c: CalcView,
    v: int,
    wires: Seq<usize>,
    k: int,
    rf: int,
    mm: int,
    slew: F64,
    d: Option<DmpView>,
    pe: Option<Reduced>,
    a: Run,
    b: Run,
)
    requires
        c.g.valid(),
        delay_laws::wires_from(c.g, v, wires),
        alike(c.g, v, a.times, b.times),
    ensures
        alike(
            c.g,
            v,
            c.arc_wires(v, wires, k, rf, mm, slew, d, pe, a).times,
            c.arc_wires(v, wires, k, rf, mm, slew, d, pe, b).times,
        ),
    decreases wires.len() - k,
{
    if 0 <= k < wires.len() {
        let w = wires[k] as int;
        lemma_wire_near(c.g, v, wires, k);
        let load = c.g.edges[w].to as int;
        let name = c.g.vertices[load].name;
        let elmore = delays::load_elmore(pe, name);
        let wire = match (d, elmore) {
            (Some(s), Some(el)) => s.load_result(el.widened()),
            (Some(_), None) => (F64(0), slew),
            (None, _) => (F64(0), slew.narrowed().widened()),
        };
        let next = match (d, elmore) {
            (Some(s), Some(el)) => Some(s.at_load(el.widened())),
            _ => d,
        };
        let line = delays::load_line(c.g.vertices[v].name, name, wire.0, wire.1);
        let (na, nb) = if d is Some {
            (a.note(line), b.note(line))
        } else {
            (a, b)
        };
        let (delay, load_slew) = c.adjust(c.g.vertices[v].lib->0, load, rf, wire);
        let x = load_slew.narrowed();
        lemma_slew_alike(c.g, v, a.times, b.times, load, rf, mm, x);
        let (pa, pb) = (a.times.merge_slew(load, rf, mm, x), b.times.merge_slew(load, rf, mm, x));
        lemma_delay_alike(c.g, v, pa, pb, w, rf, mm, delay.narrowed());
        lemma_arc_wires(
            c,
            v,
            wires,
            k + 1,
            rf,
            mm,
            slew,
            next,
            pe,
            na.at(pa.merge_delay(w, rf, mm, delay.narrowed())),
            nb.at(pb.merge_delay(w, rf, mm, delay.narrowed())),
        );
    }
}

proof fn lemma_gate_arc(c: CalcView, v: int, wires: Seq<usize>, e: int, k: int, mm: int, a: Run, b: Run)
    requires
        c.g.valid(),
        delay_laws::wires_from(c.g, v, wires),
        c.g.propagates(e),
        c.g.edges[e].kind is Gate,
        c.g.edges[e].to == v,
        alike(c.g, v, a.times, b.times),
    ensures
        steps_alike(c.g, v, c.gate_arc(v, wires, e, k, mm, a), c.gate_arc(v, wires, e, k, mm, b)),
{
    let arc = c.g.arc_set(e).arcs[k];
    let rf = arc.to_rf as int;
    let from = c.g.edges[e].from as int;
    assert(c.g.edge_valid(c.g.edges[e]));
    assert(feeds(c.g, from, v));
    assert(a.times.slew[from] == b.times.slew[from]);
    let in_slew = a.times.slew[from][arc.from_rf as int][mm];
    let pe = c.arc_parasitic(v, rf, mm);
    if let Some((delay, slew, d)) = c.gate_times(v, arc.model->Gate_0, in_slew, rf, mm) {
        let (na, nb) = match (d, pe) {
            (Some(s), Some((p, _))) => {
                let line = delays::gate_line(c.g.vertices[v].name, arc, in_slew, p, s, delay, slew);
                (a.note(line), b.note(line))
            },
            _ => (a, b),
        };
        let x = slew.narrowed();
        lemma_slew_alike(c.g, v, a.times, b.times, v, rf, mm, x);
        let (pa, pb) = (a.times.merge_slew(v, rf, mm, x), b.times.merge_slew(v, rf, mm, x));
        lemma_delay_alike(c.g, v, pa, pb, e, k, mm, delay.narrowed());
        lemma_arc_wires(
            c,
            v,
            wires,
            0,
            rf,
            mm,
            slew,
            d,
            pe,
            na.at(pa.with_delay(e, k, mm, delay.narrowed())),
            nb.at(pb.with_delay(e, k, mm, delay.narrowed())),
        );
    }
}

proof fn lemma_edge_arcs(c: CalcView, v: int, wires: Seq<usize>, e: int, mm: int, k: int, a: Run, b: Run)
    requires
        c.g.valid(),
        delay_laws::wires_from(c.g, v, wires),
        c.g.propagates(e),
        c.g.edges[e].kind is Gate,
        c.g.edges[e].to == v,
        alike(c.g, v, a.times, b.times),
    ensures
        steps_alike(c.g, v, c.edge_arcs(v, wires, e, mm, k, a), c.edge_arcs(v, wires, e, mm, k, b)),
    decreases 2 - mm, c.g.arc_set(e).arcs.len() - k,
{
    let arcs = c.g.arc_set(e).arcs;
    if mm < 0 || mm >= 2 || k < 0 {
    } else if k >= arcs.len() {
        lemma_edge_arcs(c, v, wires, e, mm + 1, 0, a, b);
    } else if !(arcs[k].model is Gate) {
        lemma_edge_arcs(c, v, wires, e, mm, k + 1, a, b);
    } else {
        lemma_gate_arc(c, v, wires, e, k, mm, a, b);
        if let (Ok(p), Ok(q)) = (c.gate_arc(v, wires, e, k, mm, a), c.gate_arc(v, wires, e, k, mm, b)) {
            lemma_edge_arcs(c, v, wires, e, mm, k + 1, p, q);
        }
    }
}

proof fn lemma_fanin_edges(c: CalcView, v: int, wires: Seq<usize>, fanin: Seq<usize>, i: int, a: Run, b: Run)
    requires
        c.g.valid(),
        delay_laws::wires_from(c.g, v, wires),
        delays::all_into(c.g, fanin, v),
        forall|j: int| 0 <= j < fanin.len() ==> !c.g.checks(#[trigger] fanin[j] as int),
        i <= fanin.len(),
        alike(c.g, v, a.times, b.times),
    ensures
        steps_alike(c.g, v, c.fanin_edges(v, wires, fanin, i, a), c.fanin_edges(v, wires, fanin, i, b)),
    decreases i,
{
    if i > 0 {
        let e = fanin[i - 1] as int;
        assert(fanin[i - 1] < c.g.edges.len() && c.g.edges[e].to == v && !c.g.checks(e));
        if c.g.edges[e].kind is Wire {
            lemma_fanin_edges(c, v, wires, fanin, i - 1, a, b);
        } else if !(c.g.arc_set(e).role is LatchDtoQ) {
            lemma_edge_arcs(c, v, wires, e, 0, 0, a, b);
            if let (Ok(p), Ok(q)) = (c.edge_arcs(v, wires, e, 0, 0, a), c.edge_arcs(v, wires, e, 0, 0, b)) {
                lemma_fanin_edges(c, v, wires, fanin, i - 1, p, q);
            }
        }
    }
}

proof fn lemma_clear_wires(c: CalcView, v: int, wires: Seq<usize>, k: int, rf: int, mm: int, a: Times, b: Times)
    requires
        c.g.valid(),
        delay_laws::wires_from(c.g, v, wires),
        alike(c.g, v, a, b),
    ensures
        alike(c.g, v, c.clear_wires(wires, k, rf, mm, a), c.clear_wires(wires, k, rf, mm, b)),
    decreases wires.len() - k,
{
    if 0 <= k < wires.len() {
        let w = wires[k] as int;
        lemma_wire_near(c.g, v, wires, k);
        let load = c.g.edges[w].to as int;
        lemma_delay_alike(c.g, v, a, b, w, rf, mm, F32(0));
        let (p, q) = (a.with_delay(w, rf, mm, F32(0)), b.with_delay(w, rf, mm, F32(0)));
        lemma_slew_alike(c.g, v, p, q, load, rf, mm, F32(0));
        lemma_clear_wires(
            c,
            v,
            wires,
            k + 1,
            rf,
            mm,
            p.with_slew(load, rf, mm, F32(0)),
            q.with_slew(load, rf, mm, F32(0)),
        );
    }
}

proof fn lemma_clear_undriven(
    c: CalcView,
    v: int,
    wires: Seq<usize>,
    fanin: Seq<usize>,
    corner: int,
    a: Times,
    b: Times,
)
    requires
        c.g.valid(),
        0 <= v < c.g.vertices.len(),
        delay_laws::wires_from(c.g, v, wires),
        alike(c.g, v, a, b),
    ensures
        alike(
            c.g,
            v,
            c.clear_undriven(v, wires, fanin, corner, a),
            c.clear_undriven(v, wires, fanin, corner, b),
        ),
    decreases 4 - corner,
{
    if 0 <= corner < 4 {
        let (rf, mm) = (corner / 2, corner % 2);
        if c.drives(fanin, rf) {
            lemma_clear_undriven(c, v, wires, fanin, corner + 1, a, b);
        } else {
            lemma_slew_alike(c.g, v, a, b, v, rf, mm, F32(0));
            let (p, q) = (a.with_slew(v, rf, mm, F32(0)), b.with_slew(v, rf, mm, F32(0)));
            lemma_clear_wires(c, v, wires, 0, rf, mm, p, q);
            lemma_clear_undriven(
                c,
                v,
                wires,
                fanin,
                corner + 1,
                c.clear_wires(wires, 0, rf, mm, p),
                c.clear_wires(wires, 0, rf, mm, q),
            );
        }
    }
}

pub(crate) proof fn lemma_propagating_edges(g: GraphView, edges: Seq<usize>)
    ensures
        forall|i: int|
            0 <= i < delays::propagating(g, edges).len() ==> !g.checks(
                #[trigger] delays::propagating(g, edges)[i] as int,
            ),
        forall|i: int|
            0 <= i < edges.len() && !g.checks(#[trigger] edges[i] as int) ==> delays::propagating(g, edges).len() > 0,
    decreases edges.len(),
{
    if edges.len() > 0 {
        let less = edges.drop_last();
        lemma_propagating_edges(g, less);
        let (before, all) = (delays::propagating(g, less), delays::propagating(g, edges));
        assert forall|i: int| 0 <= i < all.len() implies !g.checks(#[trigger] all[i] as int) by {
            if i < before.len() {
                assert(all[i] == before[i]);
            }
        }
        assert forall|i: int| 0 <= i < edges.len() && !g.checks(#[trigger] edges[i] as int) implies all.len() > 0 by {
            if i < less.len() {
                assert(less[i] == edges[i]);
            }
        }
    }
}

/// What a visit of a vertex sets depends on nothing but the slews its gate edges read, and what it
/// starts from.
pub proof fn lemma_visit_reads_its_fanin(c: CalcView, v: int, a: Run, b: Run)
    requires
        c.g.valid(),
        0 <= v < c.g.vertices.len(),
        alike(c.g, v, a.times, b.times),
    ensures
        steps_alike(c.g, v, c.visit(v, a), c.visit(v, b)),
{
    delay_laws::lemma_lists(c.g, v);
    lemma_propagating_edges(c.g, c.g.in_edges[v]);
    let fanin = delays::propagating(c.g, c.g.in_edges[v]);
    let wires = delays::wires_among(c.g, c.g.out_edges[v]);
    let (ta, tb) = (a.times, b.times);
    let zeros = delays::zero_pair();
    lemma_slews_alike(c.g, v, ta, tb, v, zeros);
    if c.g.vertices[v].is_driver {
        if fanin.len() == 0 {
            lemma_root_corners(c, v, wires, 0, ta.with_slews(v, zeros), tb.with_slews(v, zeros));
        } else {
            lemma_driven(c, v, wires, fanin, a, b);
        }
    }
}

proof fn lemma_driven(c: CalcView, v: int, wires: Seq<usize>, fanin: Seq<usize>, a: Run, b: Run)
    requires
        c.g.valid(),
        0 <= v < c.g.vertices.len(),
        delay_laws::wires_from(c.g, v, wires),
        delays::all_into(c.g, fanin, v),
        forall|j: int| 0 <= j < fanin.len() ==> !c.g.checks(#[trigger] fanin[j] as int),
        alike(c.g, v, a.times, b.times),
    ensures
        steps_alike(c.g, v, c.driven(v, wires, fanin, a), c.driven(v, wires, fanin, b)),
{
    let pair = delays::initial_pair();
    lemma_init_wires(c, v, wires, 0, a.times, b.times);
    let (ia, ib) = (c.init_wires(wires, 0, a.times), c.init_wires(wires, 0, b.times));
    lemma_slews_alike(c.g, v, ia, ib, v, pair);
    let (ra, rb) = (a.at(ia.with_slews(v, pair)), b.at(ib.with_slews(v, pair)));
    let n = fanin.len() as int;
    lemma_fanin_edges(c, v, wires, fanin, n, ra, rb);
    if let (Ok(p), Ok(q)) = (c.fanin_edges(v, wires, fanin, n, ra), c.fanin_edges(v, wires, fanin, n, rb)) {
        lemma_clear_undriven(c, v, wires, fanin, 0, p.times, q.times);
    }
}

/// A visit of `v` sets the slew of `u`.
pub open spec fn sets(g: GraphView, v: int, u: int) -> bool {
    if g.vertices[v].is_driver {
        u == v || delay_laws::wired(g, v, u)
    } else {
        u == v && delays::propagating(g, g.in_edges[v]).len() == 0
    }
}

/// No load is wired to two drivers.
pub open spec fn one_driver_per_load(g: GraphView) -> bool {
    forall|a: int, b: int|
        0 <= a < g.edges.len() && 0 <= b < g.edges.len() && (#[trigger] g.edges[a]).kind is Wire && (
        #[trigger] g.edges[b]).kind is Wire && g.edges[a].to == g.edges[b].to ==> g.edges[a].from == g.edges[b].from
}

/// A vertex that is wired to one driver at most.
pub open spec fn lone(g: GraphView, u: int) -> bool {
    forall|a: int, b: int|
        0 <= a < g.edges.len() && 0 <= b < g.edges.len() && (#[trigger] g.edges[a]).kind is Wire && (
        #[trigger] g.edges[b]).kind is Wire && g.edges[a].to == u && g.edges[b].to == u ==> g.edges[a].from
            == g.edges[b].from
}

/// A driver has no wire to it.
pub(crate) proof fn lemma_driver_is_lone(g: GraphView, v: int)
    requires
        g.valid(),
        0 <= v < g.vertices.len(),
        g.vertices[v].is_driver,
    ensures
        lone(g, v),
{
    assert forall|a: int, b: int|
        0 <= a < g.edges.len() && 0 <= b < g.edges.len() && (#[trigger] g.edges[a]).kind is Wire && (
        #[trigger] g.edges[b]).kind is Wire && g.edges[a].to == v && g.edges[b].to == v implies g.edges[a].from
        == g.edges[b].from by {
        assert(g.edge_valid(g.edges[a]));
    }
}

proof fn lemma_visit_sets(c: CalcView, v: int, run: Run, u: int)
    requires
        c.g.valid(),
        c.g.libs_valid(),
        0 <= v < c.g.vertices.len(),
        0 <= u < c.g.vertices.len(),
        delay_laws::spans(run.times, c.g),
        !sets(c.g, v, u),
    ensures
        delay_laws::times_of(c.visit(v, run)).slew[u] == run.times.slew[u],
{
    delay_laws::lemma_visit_is_local(c, v, run);
    if !c.g.vertices[v].is_driver && u != v {
        if delay_laws::wired(c.g, v, u) {
            let e = choose|e: int|
                0 <= e < c.g.edges.len() && (#[trigger] c.g.edges[e]).kind is Wire && c.g.edges[e].from == v
                    && c.g.edges[e].to == u;
            assert(c.g.edge_valid(c.g.edges[e]));
        }
        assert(run.times.slew[u] == delay_laws::times_of(c.visit(v, run)).slew[u]);
    }
}

/// A propagating edge into a vertex leaves it with a fanin.
proof fn lemma_has_fanin(g: GraphView, e: int)
    requires
        g.valid(),
        g.propagates(e),
    ensures
        delays::propagating(g, g.in_edges[g.edges[e].to as int]).len() > 0,
{
    assert(g.edge_valid(g.edges[e]));
    let v = g.edges[e].to as int;
    graph::lemma_edges_at(g.edges, v, true);
    let ins = g.in_edges[v];
    assert(ins == graph::edges_at(g.edges, v, true));
    assert(ins.contains(e as usize));
    let i = choose|i: int| 0 <= i < ins.len() && ins[i] == e as usize;
    lemma_propagating_edges(g, ins);
    assert(!g.checks(ins[i] as int));
}

/// The slew of a vertex wired to one driver at most is set by one visit at most.
proof fn lemma_set_once(g: GraphView, v: int, w: int, u: int)
    requires
        g.valid(),
        lone(g, u),
        0 <= v < g.vertices.len(),
        0 <= w < g.vertices.len(),
        0 <= u < g.vertices.len(),
        sets(g, v, u),
        sets(g, w, u),
    ensures
        v == w,
{
    if u != v {
        let e = choose|e: int|
            0 <= e < g.edges.len() && (#[trigger] g.edges[e]).kind is Wire && g.edges[e].from == v && g.edges[e].to
                == u;
        assert(g.edge_valid(g.edges[e]));
        assert(g.propagates(e));
        lemma_has_fanin(g, e);
    }
    if u != w {
        let e = choose|e: int|
            0 <= e < g.edges.len() && (#[trigger] g.edges[e]).kind is Wire && g.edges[e].from == w && g.edges[e].to
                == u;
        assert(g.edge_valid(g.edges[e]));
        assert(g.propagates(e));
        lemma_has_fanin(g, e);
    }
}

/// The run after the first `i` vertices of an order.
pub(crate) open spec fn after(c: CalcView, order: Seq<usize>, i: int, run: Run) -> Run
    decreases i,
{
    if i <= 0 {
        run
    } else {
        c.visit(order[i - 1] as int, after(c, order, i - 1, run))->Ok_0
    }
}

pub(crate) proof fn lemma_after(c: CalcView, order: Seq<usize>, i: int, run: Run)
    requires
        0 <= i <= order.len(),
        c.visit_all(order, i, after(c, order, i, run)) is Ok,
    ensures
        forall|j: int| #![trigger order[j]]
            i <= j < order.len() ==> c.visit(order[j] as int, after(c, order, j, run)) is Ok,
        c.visit_all(order, i, after(c, order, i, run)) == Ok::<Run, (Run, Seq<char>)>(
            after(c, order, order.len() as int, run),
        ),
    decreases order.len() - i,
{
    if i < order.len() {
        assert(after(c, order, i + 1, run) == c.visit(order[i] as int, after(c, order, i, run))->Ok_0);
        lemma_after(c, order, i + 1, run);
    }
}

/// A run over an order from given times, which went on to its end.
pub(crate) open spec fn goes_on(c: CalcView, order: Seq<usize>, run: Run) -> bool {
    &&& c.g.valid()
    &&& c.g.libs_valid()
    &&& topology::topological(c.g, order)
    &&& delay_laws::spans(run.times, c.g)
    &&& c.visit_all(order, 0, run) is Ok
}

pub(crate) proof fn lemma_spans(c: CalcView, order: Seq<usize>, i: int, run: Run)
    requires
        goes_on(c, order, run),
        0 <= i <= order.len(),
    ensures
        delay_laws::spans(after(c, order, i, run).times, c.g),
    decreases i,
{
    if i > 0 {
        lemma_spans(c, order, i - 1, run);
        lemma_after(c, order, 0, run);
        let v = order[i - 1] as int;
        delay_laws::lemma_visit_is_local(c, v, after(c, order, i - 1, run));
    }
}

/// A slew that no visit in between sets stays.
proof fn lemma_slew_stays(c: CalcView, order: Seq<usize>, i: int, j: int, run: Run, u: int)
    requires
        goes_on(c, order, run),
        0 <= i <= j <= order.len(),
        0 <= u < c.g.vertices.len(),
        forall|k: int| i <= k < j ==> !sets(c.g, (#[trigger] order[k]) as int, u),
    ensures
        after(c, order, i, run).times.slew[u] == after(c, order, j, run).times.slew[u],
    decreases j - i,
{
    if i < j {
        lemma_slew_stays(c, order, i, j - 1, run, u);
        lemma_spans(c, order, j - 1, run);
        lemma_after(c, order, 0, run);
        let v = order[j - 1] as int;
        assert(!sets(c.g, order[j - 1] as int, u));
        lemma_visit_sets(c, v, after(c, order, j - 1, run), u);
    }
}

/// A delay that no visit in between owns stays.
proof fn lemma_delay_stays(c: CalcView, order: Seq<usize>, i: int, j: int, run: Run, e: int)
    requires
        goes_on(c, order, run),
        0 <= i <= j <= order.len(),
        0 <= e < c.g.edges.len(),
        forall|k: int| i <= k < j ==> delay_laws::owner(c.g, e) != (#[trigger] order[k]),
    ensures
        after(c, order, i, run).times.delay[e] == after(c, order, j, run).times.delay[e],
    decreases j - i,
{
    if i < j {
        lemma_delay_stays(c, order, i, j - 1, run, e);
        lemma_spans(c, order, j - 1, run);
        lemma_after(c, order, 0, run);
        let v = order[j - 1] as int;
        let before = after(c, order, j - 1, run);
        delay_laws::lemma_visit_is_local(c, v, before);
        assert(delay_laws::owner(c.g, e) != order[j - 1]);
        assert(before.times.delay[e] == delay_laws::times_of(c.visit(v, before)).delay[e]);
    }
}

/// The place of a vertex in a topological order.
pub(crate) proof fn lemma_place(g: GraphView, order: Seq<usize>, v: int) -> (i: int)
    requires
        g.valid(),
        topology::topological(g, order),
        0 <= v < g.vertices.len(),
    ensures
        0 <= i < order.len(),
        order[i] == v,
{
    topology::lemma_all_placed(order, g.vertices.len(), v as usize);
    choose|i: int| 0 <= i < order.len() && order[i] == v as usize
}

/// The source of a propagating edge comes before its target.
pub(crate) proof fn lemma_before(g: GraphView, order: Seq<usize>, e: int, i: int) -> (j: int)
    requires
        g.valid(),
        topology::topological(g, order),
        g.propagates(e),
        0 <= i < order.len(),
        order[i] == g.edges[e].to,
    ensures
        0 <= j < i,
        order[j] == g.edges[e].from,
{
    let head = order.take(i);
    assert(head.contains(g.edges[e].from));
    let j = choose|j: int| 0 <= j < head.len() && head[j] == g.edges[e].from;
    assert(order[j] == g.edges[e].from);
    j
}

/// Before a vertex is visited, what its visit sets is as it was at the start; what its gate edges
/// read is as it will be at the end.
proof fn lemma_before_visit(c: CalcView, order: Seq<usize>, i: int, run: Run)
    requires
        goes_on(c, order, run),
        one_driver_per_load(c.g),
        0 <= i < order.len(),
    ensures
        ({
            let v = order[i] as int;
            let t = after(c, order, i, run).times;
            let end = after(c, order, order.len() as int, run).times;
            &&& forall|u: int|
                0 <= u < c.g.vertices.len() && sets(c.g, v, u) ==> #[trigger] t.slew[u] == run.times.slew[u]
            &&& forall|e: int|
                0 <= e < c.g.edges.len() && delay_laws::owner(c.g, e) == v ==> #[trigger] t.delay[e]
                    == run.times.delay[e]
            &&& forall|u: int|
                0 <= u < c.g.vertices.len() && feeds(c.g, u, v) ==> #[trigger] t.slew[u] == end.slew[u]
        }),
{
    let g = c.g;
    let v = order[i] as int;
    let n = order.len() as int;
    let t = after(c, order, i, run).times;
    let end = after(c, order, n, run).times;
    assert forall|u: int| 0 <= u < g.vertices.len() && sets(g, v, u) implies #[trigger] t.slew[u]
        == run.times.slew[u] by {
        assert forall|k: int| 0 <= k < i implies !sets(g, (#[trigger] order[k]) as int, u) by {
            if sets(g, order[k] as int, u) {
                assert(lone(g, u));
                lemma_set_once(g, order[k] as int, v, u);
            }
        }
        lemma_slew_stays(c, order, 0, i, run, u);
    }
    assert forall|e: int| 0 <= e < g.edges.len() && delay_laws::owner(g, e) == v implies #[trigger] t.delay[e]
        == run.times.delay[e] by {
        lemma_delay_stays(c, order, 0, i, run, e);
    }
    lemma_sources_settled(c, order, i, run);
}

/// Before a vertex is visited, what its gate edges read is as it will be at the end.
pub(crate) proof fn lemma_sources_settled(c: CalcView, order: Seq<usize>, i: int, run: Run)
    requires
        goes_on(c, order, run),
        0 <= i < order.len(),
    ensures
        ({
            let t = after(c, order, i, run).times;
            let end = after(c, order, order.len() as int, run).times;
            forall|u: int|
                0 <= u < c.g.vertices.len() && feeds(c.g, u, order[i] as int) ==> #[trigger] t.slew[u] == end.slew[u]
        }),
{
    let g = c.g;
    let v = order[i] as int;
    let n = order.len() as int;
    let t = after(c, order, i, run).times;
    let end = after(c, order, n, run).times;
    assert forall|u: int| 0 <= u < g.vertices.len() && feeds(g, u, v) implies #[trigger] t.slew[u]
        == end.slew[u] by {
        let e = choose|e: int|
            #[trigger] g.propagates(e) && g.edges[e].kind is Gate && g.edges[e].from == u && g.edges[e].to == v;
        let j = lemma_before(g, order, e, i);
        assert forall|k: int| i <= k < n implies !sets(g, (#[trigger] order[k]) as int, u) by {
            let w = order[k] as int;
            if sets(g, w, u) {
                if w == u {
                    assert(order[j] == order[k]);
                } else {
                    let f = choose|f: int|
                        0 <= f < g.edges.len() && (#[trigger] g.edges[f]).kind is Wire && g.edges[f].from == w
                            && g.edges[f].to == u;
                    assert(g.propagates(f));
                    let m = lemma_before(g, order, f, j);
                    assert(order[m] == order[k]);
                }
            }
        }
        lemma_slew_stays(c, order, i, n, run, u);
    }
}

/// After a vertex is visited, a slew that its visit set, of a vertex wired to one driver at most,
/// stays to the end.
pub(crate) proof fn lemma_slew_at_end(c: CalcView, order: Seq<usize>, i: int, run: Run, u: int)
    requires
        goes_on(c, order, run),
        0 <= i < order.len(),
        0 <= u < c.g.vertices.len(),
        sets(c.g, order[i] as int, u),
        lone(c.g, u),
    ensures
        after(c, order, i + 1, run).times.slew[u] == after(c, order, order.len() as int, run).times.slew[u],
{
    let n = order.len() as int;
    assert forall|k: int| i + 1 <= k < n implies !sets(c.g, (#[trigger] order[k]) as int, u) by {
        if sets(c.g, order[k] as int, u) {
            lemma_set_once(c.g, order[k] as int, order[i] as int, u);
            assert(order[k] == order[i]);
        }
    }
    lemma_slew_stays(c, order, i + 1, n, run, u);
}

/// After a vertex is visited, a delay that is its own stays to the end.
pub(crate) proof fn lemma_delay_at_end(c: CalcView, order: Seq<usize>, i: int, run: Run, e: int)
    requires
        goes_on(c, order, run),
        0 <= i < order.len(),
        0 <= e < c.g.edges.len(),
        delay_laws::owner(c.g, e) == order[i],
    ensures
        after(c, order, i + 1, run).times.delay[e] == after(c, order, order.len() as int, run).times.delay[e],
{
    let n = order.len() as int;
    assert forall|k: int| i + 1 <= k < n implies delay_laws::owner(c.g, e) != (#[trigger] order[k]) by {
        if order[k] == order[i] {
            assert(k == i);
        }
    }
    lemma_delay_stays(c, order, i + 1, n, run, e);
}

/// After a vertex is visited, what its visit set stays to the end.
proof fn lemma_after_visit(c: CalcView, order: Seq<usize>, i: int, run: Run)
    requires
        goes_on(c, order, run),
        one_driver_per_load(c.g),
        0 <= i < order.len(),
    ensures
        ({
            let v = order[i] as int;
            let t = after(c, order, i + 1, run).times;
            let end = after(c, order, order.len() as int, run).times;
            &&& forall|u: int|
                0 <= u < c.g.vertices.len() && sets(c.g, v, u) ==> #[trigger] t.slew[u] == end.slew[u]
            &&& forall|e: int|
                0 <= e < c.g.edges.len() && delay_laws::owner(c.g, e) == v ==> #[trigger] t.delay[e] == end.delay[e]
        }),
{
    let g = c.g;
    let v = order[i] as int;
    let t = after(c, order, i + 1, run).times;
    let end = after(c, order, order.len() as int, run).times;
    assert forall|u: int| 0 <= u < g.vertices.len() && sets(g, v, u) implies #[trigger] t.slew[u] == end.slew[u] by {
        assert(lone(g, u));
        lemma_slew_at_end(c, order, i, run, u);
    }
    assert forall|e: int| 0 <= e < g.edges.len() && delay_laws::owner(g, e) == v implies #[trigger] t.delay[e]
        == end.delay[e] by {
        lemma_delay_at_end(c, order, i, run, e);
    }
}

/// Two runs end alike in what the visit of `v` sets.
spec fn end_alike(g: GraphView, v: int, a: Times, b: Times) -> bool {
    &&& forall|u: int| 0 <= u < g.vertices.len() && sets(g, v, u) ==> #[trigger] a.slew[u] == b.slew[u]
    &&& forall|e: int| 0 <= e < g.edges.len() && delay_laws::owner(g, e) == v ==> #[trigger] a.delay[e] == b.delay[e]
}

proof fn lemma_ends_alike(c: CalcView, p: Seq<usize>, q: Seq<usize>, a: Run, b: Run, i: int)
    requires
        goes_on(c, p, a),
        goes_on(c, q, b),
        one_driver_per_load(c.g),
        a.times == b.times,
        0 <= i < p.len(),
    ensures
        end_alike(
            c.g,
            p[i] as int,
            after(c, p, p.len() as int, a).times,
            after(c, q, q.len() as int, b).times,
        ),
    decreases i, 1int,
{
    let g = c.g;
    let v = p[i] as int;
    let n = p.len() as int;
    let j = lemma_place(g, q, v);
    let (ra, rb) = (after(c, p, i, a), after(c, q, j, b));
    let (ea, eb) = (after(c, p, n, a).times, after(c, q, n, b).times);
    lemma_spans(c, p, i, a);
    lemma_spans(c, q, j, b);
    lemma_after(c, p, 0, a);
    lemma_after(c, q, 0, b);
    lemma_before_visit(c, p, i, a);
    lemma_before_visit(c, q, j, b);
    lemma_after_visit(c, p, i, a);
    lemma_after_visit(c, q, j, b);
    assert forall|u: int| 0 <= u < g.vertices.len() && feeds(g, u, v) implies #[trigger] ra.times.slew[u]
        == rb.times.slew[u] by {
        assert(ra.times.slew[u] == ea.slew[u]);
        assert(rb.times.slew[u] == eb.slew[u]);
        lemma_source_alike(c, p, q, a, b, i, u);
    }
    if g.vertices[v].is_driver {
        assert forall|u: int| 0 <= u < g.vertices.len() && near(g, v, u) implies #[trigger] ra.times.slew[u]
            == rb.times.slew[u] by {
            if !feeds(g, u, v) {
                assert(sets(g, v, u));
                assert(ra.times.slew[u] == a.times.slew[u]);
                assert(rb.times.slew[u] == b.times.slew[u]);
            }
        }
        assert forall|e: int| 0 <= e < g.edges.len() && delay_laws::owner(g, e) == v implies
            #[trigger] ra.times.delay[e] == rb.times.delay[e] by {
            assert(rb.times.delay[e] == b.times.delay[e]);
        }
        lemma_visit_reads_its_fanin(c, v, ra, rb);
        let (ta, tb) = (after(c, p, i + 1, a).times, after(c, q, j + 1, b).times);
        assert(after(c, p, i + 1, a) == c.visit(v, ra)->Ok_0);
        assert(after(c, q, j + 1, b) == c.visit(v, rb)->Ok_0);
        assert(c.visit(p[i] as int, ra) is Ok);
        assert(c.visit(q[j] as int, rb) is Ok);
        assert forall|u: int| 0 <= u < g.vertices.len() && sets(g, v, u) implies #[trigger] ea.slew[u]
            == eb.slew[u] by {
            assert(ta.slew[u] == ea.slew[u]);
            assert(tb.slew[u] == eb.slew[u]);
        }
        assert forall|e: int| 0 <= e < g.edges.len() && delay_laws::owner(g, e) == v implies #[trigger] ea.delay[e]
            == eb.delay[e] by {
            assert(ta.delay[e] == ea.delay[e]);
            assert(tb.delay[e] == eb.delay[e]);
        }
    } else {
        lemma_load_ends_alike(c, p, q, a, b, i, j);
    }
}

/// Two runs end alike in a slew that a gate edge into `p[i]` reads.
proof fn lemma_source_alike(c: CalcView, p: Seq<usize>, q: Seq<usize>, a: Run, b: Run, i: int, u: int)
    requires
        goes_on(c, p, a),
        goes_on(c, q, b),
        one_driver_per_load(c.g),
        a.times == b.times,
        0 <= i < p.len(),
        0 <= u < c.g.vertices.len(),
        feeds(c.g, u, p[i] as int),
    ensures
        after(c, p, p.len() as int, a).times.slew[u] == after(c, q, q.len() as int, b).times.slew[u],
    decreases i, 0int,
{
    let g = c.g;
    let v = p[i] as int;
    let n = p.len() as int;
    let e = choose|e: int|
        #[trigger] g.propagates(e) && g.edges[e].kind is Gate && g.edges[e].from == u && g.edges[e].to == v;
    let j = lemma_before(g, p, e, i);
    if exists|k: int| 0 <= k < i && sets(g, (#[trigger] p[k]) as int, u) {
        let k = choose|k: int| 0 <= k < i && sets(g, (#[trigger] p[k]) as int, u);
        lemma_ends_alike(c, p, q, a, b, k);
    } else {
        assert forall|w: int| 0 <= w < g.vertices.len() implies !#[trigger] sets(g, w, u) by {
            if sets(g, w, u) {
                if w == u {
                    assert(sets(g, p[j] as int, u));
                } else {
                    let f = choose|f: int|
                        0 <= f < g.edges.len() && (#[trigger] g.edges[f]).kind is Wire && g.edges[f].from == w
                            && g.edges[f].to == u;
                    assert(g.propagates(f));
                    let m = lemma_before(g, p, f, j);
                    assert(sets(g, p[m] as int, u));
                }
            }
        }
        lemma_slew_stays(c, p, 0, n, a, u);
        lemma_slew_stays(c, q, 0, n, b, u);
    }
}

proof fn lemma_visit_load(c: CalcView, v: int, run: Run)
    requires
        !c.g.vertices[v].is_driver,
        0 <= v < run.times.slew.len(),
    ensures
        c.visit(v, run) matches Ok(r) && r.times.delay == run.times.delay && (sets(c.g, v, v) ==> r.times.slew[v]
            == seq![delays::zero_pair(), delays::zero_pair()]),
{
}

/// A load's own visit sets its slew to 0 where nothing reaches it, and no delay.
proof fn lemma_load_end(c: CalcView, order: Seq<usize>, i: int, run: Run)
    requires
        goes_on(c, order, run),
        one_driver_per_load(c.g),
        0 <= i < order.len(),
        !c.g.vertices[order[i] as int].is_driver,
    ensures
        ({
            let v = order[i] as int;
            let end = after(c, order, order.len() as int, run).times;
            &&& sets(c.g, v, v) ==> end.slew[v] == seq![delays::zero_pair(), delays::zero_pair()]
            &&& forall|e: int|
                0 <= e < c.g.edges.len() && delay_laws::owner(c.g, e) == v ==> #[trigger] end.delay[e]
                    == run.times.delay[e]
        }),
{
    let g = c.g;
    let v = order[i] as int;
    let n = order.len() as int;
    let before = after(c, order, i, run);
    let t = after(c, order, i + 1, run).times;
    let end = after(c, order, n, run).times;
    lemma_spans(c, order, i, run);
    lemma_before_visit(c, order, i, run);
    lemma_after_visit(c, order, i, run);
    lemma_visit_load(c, v, before);
    assert(t == (c.visit(v, before)->Ok_0).times);
    if sets(g, v, v) {
        assert(t.slew[v] == end.slew[v]);
    }
    assert forall|e: int| 0 <= e < g.edges.len() && delay_laws::owner(g, e) == v implies #[trigger] end.delay[e]
        == run.times.delay[e] by {
        assert(t.delay[e] == end.delay[e]);
        assert(before.times.delay[e] == run.times.delay[e]);
    }
}

proof fn lemma_load_ends_alike(c: CalcView, p: Seq<usize>, q: Seq<usize>, a: Run, b: Run, i: int, j: int)
    requires
        goes_on(c, p, a),
        goes_on(c, q, b),
        one_driver_per_load(c.g),
        a.times == b.times,
        0 <= i < p.len(),
        0 <= j < q.len(),
        p[i] == q[j],
        !c.g.vertices[p[i] as int].is_driver,
    ensures
        end_alike(
            c.g,
            p[i] as int,
            after(c, p, p.len() as int, a).times,
            after(c, q, q.len() as int, b).times,
        ),
{
    let v = p[i] as int;
    lemma_load_end(c, p, i, a);
    lemma_load_end(c, q, j, b);
    let (ea, eb) = (after(c, p, p.len() as int, a).times, after(c, q, q.len() as int, b).times);
    assert forall|e: int| 0 <= e < c.g.edges.len() && delay_laws::owner(c.g, e) == v implies #[trigger] ea.delay[e]
        == eb.delay[e] by {
        assert(eb.delay[e] == b.times.delay[e]);
    }
}

/// From the same times, visiting vertices in one topological order or another gives the same slews
/// and delays, where no load is wired to two drivers.
pub proof fn lemma_any_topological_order_serves(c: CalcView, p: Seq<usize>, q: Seq<usize>, a: Run, b: Run)
    requires
        c.g.valid(),
        c.g.libs_valid(),
        one_driver_per_load(c.g),
        topology::topological(c.g, p),
        topology::topological(c.g, q),
        delay_laws::spans(a.times, c.g),
        a.times == b.times,
        c.visit_all(p, 0, a) is Ok,
        c.visit_all(q, 0, b) is Ok,
    ensures
        delay_laws::times_of(c.visit_all(p, 0, a)) == delay_laws::times_of(c.visit_all(q, 0, b)),
{
    let g = c.g;
    let n = p.len() as int;
    lemma_after(c, p, 0, a);
    lemma_after(c, q, 0, b);
    lemma_spans(c, p, n, a);
    lemma_spans(c, q, n, b);
    let (ea, eb) = (after(c, p, n, a).times, after(c, q, n, b).times);
    assert forall|u: int| 0 <= u < g.vertices.len() implies #[trigger] ea.slew[u] == eb.slew[u] by {
        if exists|k: int| 0 <= k < n && sets(g, (#[trigger] p[k]) as int, u) {
            let k = choose|k: int| 0 <= k < n && sets(g, (#[trigger] p[k]) as int, u);
            lemma_ends_alike(c, p, q, a, b, k);
        } else {
            assert forall|k: int| 0 <= k < n implies !sets(g, (#[trigger] q[k]) as int, u) by {
                let j = lemma_place(g, p, q[k] as int);
                assert(!sets(g, p[j] as int, u));
            }
            lemma_slew_stays(c, p, 0, n, a, u);
            lemma_slew_stays(c, q, 0, n, b, u);
        }
    }
    assert forall|e: int| 0 <= e < g.edges.len() implies #[trigger] ea.delay[e] == eb.delay[e] by {
        assert(g.edge_valid(g.edges[e]));
        let k = lemma_place(g, p, delay_laws::owner(g, e));
        lemma_ends_alike(c, p, q, a, b, k);
    }
    assert(ea.slew =~= eb.slew);
    assert(ea.delay =~= eb.delay);
}

/// The vertices on net `i`.
pub open spec fn on_net(n: NetlistView, vertices: Seq<VertexView>, i: int) -> Seq<usize> {
    graph::vertices_of(n, graph::name_index(vertices), n.nets[i].pins)
}

/// No vertex is on two nets.
pub open spec fn nets_apart(n: NetlistView, vertices: Seq<VertexView>) -> bool {
    forall|i: int, j: int, v: usize|
        0 <= i < n.nets.len() && 0 <= j < n.nets.len() && #[trigger] on_net(n, vertices, i).contains(v)
            && #[trigger] on_net(n, vertices, j).contains(v) ==> i == j
}

/// Every wire of a list is one of the first `i` nets, from the net's driver to a vertex on it.
spec fn wires_of_nets(n: NetlistView, vertices: Seq<VertexView>, i: int, edges: Seq<Edge>) -> bool {
    forall|e: int|
        0 <= e < edges.len() && (#[trigger] edges[e]).kind is Wire ==> exists|j: int|
            0 <= j < i && #[trigger] on_net(n, vertices, j).contains(edges[e].to) && edges[e].from
                == graph::drivers_of(n, vertices, j)[0]
}

proof fn lemma_cell_edges_are_gates(
    pins: Map<Seq<char>, usize>,
    sets: Seq<ArcSetView>,
    k: int,
    done: Seq<Edge>,
)
    requires
        forall|e: int| 0 <= e < done.len() ==> (#[trigger] done[e]).kind is Gate,
    ensures
        forall|e: int|
            0 <= e < graph::cell_edges(pins, sets, k, done).len() ==> (#[trigger] graph::cell_edges(
                pins,
                sets,
                k,
                done,
            )[e]).kind is Gate,
    decreases sets.len() - k,
{
    if 0 <= k < sets.len() {
        let set = sets[k];
        if !(set.role is Other) && set.arcs.len() > 0 && pins.contains_key(set.from) && pins.contains_key(set.to) {
            let next = done.push(
                Edge { from: pins[set.from], to: pins[set.to], kind: EdgeKind::Gate { set: k as usize } },
            );
            lemma_cell_edges_are_gates(pins, sets, k + 1, next);
        } else {
            lemma_cell_edges_are_gates(pins, sets, k + 1, done);
        }
    }
}

proof fn lemma_gate_edges_are_gates(
    libs: Seq<LibraryView>,
    insts: Seq<(Seq<char>, Seq<char>)>,
    vertices: Seq<VertexView>,
    i: int,
    done: Seq<Edge>,
)
    requires
        forall|e: int| 0 <= e < done.len() ==> (#[trigger] done[e]).kind is Gate,
    ensures
        forall|e: int|
            0 <= e < graph::gate_edges(libs, insts, vertices, i, done).len() ==> (#[trigger] graph::gate_edges(
                libs,
                insts,
                vertices,
                i,
                done,
            )[e]).kind is Gate,
    decreases insts.len() - i,
{
    if 0 <= i < insts.len() {
        let cell = insts[i].1;
        match graph::library_with(libs, cell) {
            None => lemma_gate_edges_are_gates(libs, insts, vertices, i + 1, done),
            Some(lib) => {
                let pins = graph::pin_index(vertices, i);
                let sets = libs[lib as int].cells[cell].arc_sets;
                lemma_cell_edges_are_gates(pins, sets, 0, done);
                let next = graph::cell_edges(pins, sets, 0, done);
                lemma_gate_edges_are_gates(libs, insts, vertices, i + 1, next);
            },
        }
    }
}

proof fn lemma_wires_of_nets(n: NetlistView, vertices: Seq<VertexView>, i: int, done: Seq<Edge>)
    requires
        0 <= i <= n.nets.len(),
        wires_of_nets(n, vertices, i, done),
    ensures
        graph::wire_edges(n, vertices, i, done) matches Ok(edges) ==> wires_of_nets(
            n,
            vertices,
            n.nets.len() as int,
            edges,
        ),
    decreases n.nets.len() - i,
{
    if i < n.nets.len() {
        let vs = on_net(n, vertices, i);
        let drivers = graph::drivers_of(n, vertices, i);
        let loads = graph::with_drive(vertices, vs, false);
        graph::lemma_with_drive(vertices, vs, false);
        let wires = graph::wires_to(drivers[0], loads);
        let next = if drivers.len() == 1 {
            done + wires
        } else {
            done
        };
        assert(wires_of_nets(n, vertices, i + 1, next)) by {
            assert forall|e: int| 0 <= e < next.len() && (#[trigger] next[e]).kind is Wire implies exists|j: int|
                0 <= j < i + 1 && #[trigger] on_net(n, vertices, j).contains(next[e].to) && next[e].from
                    == graph::drivers_of(n, vertices, j)[0] by {
                if e < done.len() {
                    assert(next[e] == done[e]);
                    let j = choose|j: int|
                        0 <= j < i && #[trigger] on_net(n, vertices, j).contains(done[e].to) && done[e].from
                            == graph::drivers_of(n, vertices, j)[0];
                    assert(on_net(n, vertices, j).contains(next[e].to));
                } else {
                    assert(next[e] == wires[e - done.len()]);
                    assert(on_net(n, vertices, i).contains(next[e].to));
                }
            }
        }
        lemma_wires_of_nets(n, vertices, i + 1, next);
    }
}

/// Where no pin is on two nets, no load of the graph is wired to two drivers.
pub proof fn lemma_nets_apart(libs: Seq<LibraryView>, n: NetlistView)
    ensures
        graph::graph_of(libs, n) matches Ok(g) ==> nets_apart(n, g.vertices) ==> one_driver_per_load(g),
{
    if let Ok(g) = graph::graph_of(libs, n) {
        lemma_gate_edges_are_gates(libs, n.insts, g.vertices, 0, Seq::empty());
        let gates = graph::gate_edges(libs, n.insts, g.vertices, 0, Seq::empty());
        lemma_wires_of_nets(n, g.vertices, 0, gates);
        if nets_apart(n, g.vertices) {
            assert forall|a: int, b: int|
                0 <= a < g.edges.len() && 0 <= b < g.edges.len() && (#[trigger] g.edges[a]).kind is Wire && (
                #[trigger] g.edges[b]).kind is Wire && g.edges[a].to == g.edges[b].to implies g.edges[a].from
                == g.edges[b].from by {
                let i = choose|i: int|
                    0 <= i < n.nets.len() && #[trigger] on_net(n, g.vertices, i).contains(g.edges[a].to)
                        && g.edges[a].from == graph::drivers_of(n, g.vertices, i)[0];
                let j = choose|j: int|
                    0 <= j < n.nets.len() && #[trigger] on_net(n, g.vertices, j).contains(g.edges[b].to)
                        && g.edges[b].from == graph::drivers_of(n, g.vertices, j)[0];
                assert(i == j);
            }
        }
    }
}

} // verus!
