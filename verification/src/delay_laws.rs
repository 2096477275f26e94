//! What holds of delay calculation as a whole: which values a vertex's visit sets, and what drivers
//! hold once it is done.

use vstd::prelude::*;
use crate::dcalc;
use crate::dcalc::DmpView;
use crate::delays;
use crate::delays::{CalcView, Reduced, Run, Step};
use crate::float32::F32;
use crate::float64::F64;
use crate::graph;
use crate::graph::{EdgeKind, GraphView, Times};
use crate::liberty::Role;
use crate::topology;

verus! {

/// There is a wire from `v` to `u`.
pub open spec fn wired(g: GraphView, v: int, u: int) -> bool {
    exists|e: int|
        0 <= e < g.edges.len() && (#[trigger] g.edges[e]).kind is Wire && g.edges[e].from == v && g.edges[e].to == u
}

/// Every edge of a list is a wire from `v`.
pub open spec fn wires_from(g: GraphView, v: int, wires: Seq<usize>) -> bool {
    forall|i: int|
        0 <= i < wires.len() ==> (#[trigger] wires[i]) < g.edges.len() && g.edges[wires[i] as int].kind is Wire
            && g.edges[wires[i] as int].from == v
}

/// The vertex whose visit sets an edge's delays: a wire's driver, a gate edge's target.
pub open spec fn owner(g: GraphView, e: int) -> int {
    match g.edges[e].kind {
        EdgeKind::Wire => g.edges[e].from as int,
        EdgeKind::Gate { .. } => g.edges[e].to as int,
    }
}

/// One value per vertex and edge.
pub open spec fn spans(t: Times, g: GraphView) -> bool {
    t.slew.len() == g.vertices.len() && t.delay.len() == g.edges.len()
}

/// Times that differ only at the loads and wires of `v`.
pub open spec fn differ_at_loads(g: GraphView, v: int, a: Times, b: Times) -> bool {
    &&& spans(a, g)
    &&& spans(b, g)
    &&& a.fits(g) ==> b.fits(g)
    &&& forall|u: int| 0 <= u < a.slew.len() && !wired(g, v, u) ==> #[trigger] a.slew[u] == b.slew[u]
    &&& forall|e: int|
        0 <= e < a.delay.len() && !(g.edges[e].kind is Wire && g.edges[e].from == v) ==> #[trigger] a.delay[e]
            == b.delay[e]
}

/// Times that differ only at `v`, its loads, its wires and its gate edges.
pub open spec fn differ_at(g: GraphView, v: int, a: Times, b: Times) -> bool {
    &&& spans(a, g)
    &&& spans(b, g)
    &&& a.fits(g) ==> b.fits(g)
    &&& forall|u: int| 0 <= u < a.slew.len() && u != v && !wired(g, v, u) ==> #[trigger] a.slew[u] == b.slew[u]
    &&& forall|e: int| 0 <= e < a.delay.len() && owner(g, e) != v ==> #[trigger] a.delay[e] == b.delay[e]
}

proof fn lemma_loads_chain(g: GraphView, v: int, a: Times, b: Times, c: Times)
    requires
        differ_at_loads(g, v, a, b),
        differ_at_loads(g, v, b, c),
    ensures
        differ_at_loads(g, v, a, c),
{
    assert forall|u: int| 0 <= u < a.slew.len() && !wired(g, v, u) implies #[trigger] a.slew[u] == c.slew[u] by {
        assert(b.slew[u] == c.slew[u]);
    }
    assert forall|e: int|
        0 <= e < a.delay.len() && !(g.edges[e].kind is Wire && g.edges[e].from == v) implies #[trigger] a.delay[e]
        == c.delay[e] by {
        assert(b.delay[e] == c.delay[e]);
    }
}

proof fn lemma_chain(g: GraphView, v: int, a: Times, b: Times, c: Times)
    requires
        differ_at(g, v, a, b),
        differ_at(g, v, b, c),
    ensures
        differ_at(g, v, a, c),
{
    assert forall|u: int| 0 <= u < a.slew.len() && u != v && !wired(g, v, u) implies #[trigger] a.slew[u]
        == c.slew[u] by {
        assert(b.slew[u] == c.slew[u]);
    }
    assert forall|e: int| 0 <= e < a.delay.len() && owner(g, e) != v implies #[trigger] a.delay[e]
        == c.delay[e] by {
        assert(b.delay[e] == c.delay[e]);
    }
}

proof fn lemma_loads_are_local(g: GraphView, v: int, a: Times, b: Times)
    requires
        differ_at_loads(g, v, a, b),
    ensures
        differ_at(g, v, a, b),
{
}

/// Times that differ only at the slew of `u` and the delay of `e`.
spec fn set_at(a: Times, b: Times, u: int, e: int) -> bool {
    &&& a.slew.len() == b.slew.len()
    &&& a.delay.len() == b.delay.len()
    &&& forall|x: int| 0 <= x < a.slew.len() && x != u ==> #[trigger] a.slew[x] == b.slew[x]
    &&& forall|y: int| 0 <= y < a.delay.len() && y != e ==> #[trigger] a.delay[y] == b.delay[y]
}

/// Setting a value keeps a place for every value.
pub(crate) proof fn lemma_slew_fits(t: Times, g: GraphView, u: int, rf: int, mm: int, x: F32)
    requires
        t.fits(g),
        0 <= u < g.vertices.len(),
        0 <= rf < 2,
        0 <= mm < 2,
    ensures
        t.with_slew(u, rf, mm, x).fits(g),
{
}

pub(crate) proof fn lemma_delay_fits(t: Times, g: GraphView, e: int, k: int, mm: int, x: F32)
    requires
        t.fits(g),
        0 <= e < g.edges.len(),
        0 <= k < t.delay[e].len(),
        0 <= mm < 2,
    ensures
        t.with_delay(e, k, mm, x).fits(g),
{
    let after = t.with_delay(e, k, mm, x);
    assert forall|f: int, j: int| 0 <= f < after.delay.len() && 0 <= j < after.delay[f].len() implies (
    #[trigger] after.delay[f][j]).len() == 2 by {
        if f != e || j != k {
            assert(after.delay[f][j] == t.delay[f][j]);
        } else {
            assert(t.delay[f][j].len() == 2);
        }
    }
    assert forall|f: int| 0 <= f < after.delay.len() implies (#[trigger] after.delay[f]).len()
        == t.delay[f].len() by {}
}

pub(crate) proof fn lemma_pair_fits(t: Times, g: GraphView, w: int, pair: Seq<F32>)
    requires
        t.fits(g),
        0 <= w < g.edges.len(),
        g.edges[w].kind is Wire,
        g.edges[w].to < g.vertices.len(),
        pair.len() == 2,
    ensures
        t.with_slews(g.edges[w].to as int, pair).with_delays(w, pair).fits(g),
{
    let after = t.with_slews(g.edges[w].to as int, pair).with_delays(w, pair);
    assert forall|f: int, j: int| 0 <= f < after.delay.len() && 0 <= j < after.delay[f].len() implies (
    #[trigger] after.delay[f][j]).len() == 2 by {
        if f != w {
            assert(after.delay[f][j] == t.delay[f][j]);
        }
    }
    assert forall|f: int| 0 <= f < after.delay.len() implies (#[trigger] after.delay[f]).len()
        == t.delay[f].len() by {}
}

proof fn lemma_set_load(g: GraphView, v: int, a: Times, b: Times, w: int)
    requires
        spans(a, g),
        a.fits(g) ==> b.fits(g),
        0 <= w < g.edges.len(),
        g.edges[w].kind is Wire,
        g.edges[w].from == v,
        set_at(a, b, g.edges[w].to as int, w),
    ensures
        differ_at_loads(g, v, a, b),
{
    assert(wired(g, v, g.edges[w].to as int));
}

proof fn lemma_root_wire_fits(c: CalcView, pe: Option<Reduced>, e: int, rf: int, mm: int, t: Times)
    requires
        c.g.valid(),
        0 <= e < c.g.edges.len(),
        c.g.edges[e].kind is Wire,
        0 <= rf < 2,
        0 <= mm < 2,
        t.fits(c.g),
    ensures
        c.root_wire(pe, e, rf, mm, t).fits(c.g),
{
    assert(c.g.edge_valid(c.g.edges[e]));
    let load = c.g.edges[e].to as int;
    let ll = c.threshold_library(load);
    let wire = match delays::load_elmore(pe, c.g.vertices[load].name) {
        Some(el) => dcalc::port_wire_delay_slew(
            F64(0),
            el,
            delays::input_thresholds(c.header(ll), rf),
            c.logs[ll as int].input[rf],
        ),
        None => (F64(0), F64(0)),
    };
    let (delay, slew) = c.adjust(0, load, rf, wire);
    lemma_slew_fits(t, c.g, load, rf, mm, slew.narrowed());
    lemma_delay_fits(t.with_slew(load, rf, mm, slew.narrowed()), c.g, e, rf, mm, delay.narrowed());
}

proof fn lemma_root_wires(
    c: CalcView,
    v: int,
    pe: Option<Reduced>,
    wires: Seq<usize>,
    k: int,
    rf: int,
    mm: int,
    t: Times,
)
    requires
        c.g.valid(),
        wires_from(c.g, v, wires),
        0 <= rf < 2,
        0 <= mm < 2,
        spans(t, c.g),
    ensures
        differ_at_loads(c.g, v, t, c.root_wires(pe, wires, k, rf, mm, t)),
    decreases wires.len() - k,
{
    if 0 <= k < wires.len() {
        let e = wires[k] as int;
        assert(c.g.edge_valid(c.g.edges[e]));
        let next = c.root_wire(pe, e, rf, mm, t);
        if t.fits(c.g) {
            lemma_root_wire_fits(c, pe, e, rf, mm, t);
        }
        lemma_set_load(c.g, v, t, next, e);
        lemma_root_wires(c, v, pe, wires, k + 1, rf, mm, next);
        lemma_loads_chain(c.g, v, t, next, c.root_wires(pe, wires, k + 1, rf, mm, next));
    }
}

proof fn lemma_root_corners(c: CalcView, v: int, wires: Seq<usize>, corner: int, t: Times)
    requires
        c.g.valid(),
        wires_from(c.g, v, wires),
        spans(t, c.g),
    ensures
        differ_at_loads(c.g, v, t, c.root_corners(v, wires, corner, t)),
    decreases 4 - corner,
{
    if 0 <= corner < 4 {
        let (rf, mm) = (corner / 2, corner % 2);
        let pe = c.reduce(v, rf, mm);
        lemma_root_wires(c, v, pe, wires, 0, rf, mm, t);
        let next = c.root_wires(pe, wires, 0, rf, mm, t);
        lemma_root_corners(c, v, wires, corner + 1, next);
        lemma_loads_chain(c.g, v, t, next, c.root_corners(v, wires, corner + 1, next));
    }
}

pub(crate) proof fn lemma_init_wires(c: CalcView, v: int, wires: Seq<usize>, k: int, t: Times)
    requires
        c.g.valid(),
        wires_from(c.g, v, wires),
        spans(t, c.g),
    ensures
        differ_at_loads(c.g, v, t, c.init_wires(wires, k, t)),
    decreases wires.len() - k,
{
    if 0 <= k < wires.len() {
        let e = wires[k] as int;
        assert(c.g.edge_valid(c.g.edges[e]));
        let next = t.with_slews(c.g.edges[e].to as int, delays::initial_pair()).with_delays(
            e,
            delays::initial_pair(),
        );
        if t.fits(c.g) {
            lemma_pair_fits(t, c.g, e, delays::initial_pair());
        }
        lemma_set_load(c.g, v, t, next, e);
        lemma_init_wires(c, v, wires, k + 1, next);
        lemma_loads_chain(c.g, v, t, next, c.init_wires(wires, k + 1, next));
    }
}

pub(crate) proof fn lemma_arc_wires(
    c: CalcView,
    v: int,
    wires: Seq<usize>,
    k: int,
    rf: int,
    mm: int,
    slew: F64,
    d: Option<DmpView>,
    pe: Option<Reduced>,
    run: Run,
)
    requires
        c.g.valid(),
        wires_from(c.g, v, wires),
        0 <= rf < 2,
        0 <= mm < 2,
        spans(run.times, c.g),
    ensures
        differ_at_loads(c.g, v, run.times, c.arc_wires(v, wires, k, rf, mm, slew, d, pe, run).times),
    decreases wires.len() - k,
{
    if 0 <= k < wires.len() {
        let w = wires[k] as int;
        assert(c.g.edge_valid(c.g.edges[w]));
        let load = c.g.edges[w].to as int;
        let name = c.g.vertices[load].name;
        let elmore = delays::load_elmore(pe, name);
        let wire = match (d, elmore) {
            (Some(s), Some(el)) => s.load_result(el.widened()),
            (Some(_), None) => (F64(0), slew),
            (None, _) => (F64(0), slew.narrowed().widened()),
        };
        let next = match (d, elmore) {
            (Some(s), Some(el)) => Some(s.at_load(el.widened())),
            _ => d,
        };
        let noted = if d is Some {
            run.note(delays::load_line(c.g.vertices[v].name, name, wire.0, wire.1))
        } else {
            run
        };
        let (delay, load_slew) = c.adjust(c.g.vertices[v].lib->0, load, rf, wire);
        let merged = noted.times.merge_slew(load, rf, mm, load_slew.narrowed()).merge_delay(
            w,
            rf,
            mm,
            delay.narrowed(),
        );
        if run.times.fits(c.g) {
            lemma_slew_fits(run.times, c.g, load, rf, mm, load_slew.narrowed());
            let first = run.times.merge_slew(load, rf, mm, load_slew.narrowed());
            lemma_delay_fits(first, c.g, w, rf, mm, delay.narrowed());
        }
        lemma_set_load(c.g, v, run.times, merged, w);
        lemma_arc_wires(c, v, wires, k + 1, rf, mm, slew, next, pe, noted.at(merged));
        lemma_loads_chain(
            c.g,
            v,
            run.times,
            merged,
            c.arc_wires(v, wires, k + 1, rf, mm, slew, next, pe, noted.at(merged)).times,
        );
    }
}

/// The times of a step, gone on or ended.
pub open spec fn times_of(step: Step) -> Times {
    match step {
        Ok(r) => r.times,
        Err((r, _)) => r.times,
    }
}

pub(crate) proof fn lemma_gate_arc(c: CalcView, v: int, wires: Seq<usize>, e: int, k: int, mm: int, run: Run)
    requires
        c.g.valid(),
        c.g.libs_valid(),
        wires_from(c.g, v, wires),
        0 <= e < c.g.edges.len(),
        c.g.edges[e].kind is Gate,
        c.g.edges[e].to == v,
        0 <= k < c.g.arc_set(e).arcs.len(),
        0 <= mm < 2,
        spans(run.times, c.g),
    ensures
        differ_at(c.g, v, run.times, times_of(c.gate_arc(v, wires, e, k, mm, run))),
{
    let arc = c.g.arc_set(e).arcs[k];
    let rf = arc.to_rf as int;
    let in_slew = run.times.slew[c.g.edges[e].from as int][arc.from_rf as int][mm];
    let pe = c.arc_parasitic(v, rf, mm);
    assert(c.g.edge_valid(c.g.edges[e]));
    c.g.lemma_arc_timed(e, k);
    if let Some((delay, slew, d)) = c.gate_times(v, arc.model->Gate_0, in_slew, rf, mm) {
        let noted = match (d, pe) {
            (Some(s), Some((p, _))) => run.note(
                delays::gate_line(c.g.vertices[v].name, arc, in_slew, p, s, delay, slew),
            ),
            _ => run,
        };
        let t = noted.times.merge_slew(v, rf, mm, slew.narrowed()).with_delay(e, k, mm, delay.narrowed());
        assert(set_at(run.times, t, v, e));
        if run.times.fits(c.g) {
            lemma_slew_fits(run.times, c.g, v, rf, mm, slew.narrowed());
            let first = run.times.merge_slew(v, rf, mm, slew.narrowed());
            lemma_delay_fits(first, c.g, e, k, mm, delay.narrowed());
        }
        assert(differ_at(c.g, v, run.times, t));
        lemma_arc_wires(c, v, wires, 0, rf, mm, slew, d, pe, noted.at(t));
        let after = c.arc_wires(v, wires, 0, rf, mm, slew, d, pe, noted.at(t)).times;
        lemma_loads_are_local(c.g, v, t, after);
        lemma_chain(c.g, v, run.times, t, after);
    }
}

pub(crate) proof fn lemma_edge_arcs(c: CalcView, v: int, wires: Seq<usize>, e: int, mm: int, k: int, run: Run)
    requires
        c.g.valid(),
        c.g.libs_valid(),
        wires_from(c.g, v, wires),
        0 <= e < c.g.edges.len(),
        c.g.edges[e].kind is Gate,
        c.g.edges[e].to == v,
        spans(run.times, c.g),
    ensures
        differ_at(c.g, v, run.times, times_of(c.edge_arcs(v, wires, e, mm, k, run))),
    decreases 2 - mm, c.g.arc_set(e).arcs.len() - k,
{
    let arcs = c.g.arc_set(e).arcs;
    if mm < 0 || mm >= 2 || k < 0 {
    } else if k >= arcs.len() {
        lemma_edge_arcs(c, v, wires, e, mm + 1, 0, run);
    } else if !(arcs[k].model is Gate) {
        lemma_edge_arcs(c, v, wires, e, mm, k + 1, run);
    } else {
        lemma_gate_arc(c, v, wires, e, k, mm, run);
        if let Ok(r) = c.gate_arc(v, wires, e, k, mm, run) {
            lemma_edge_arcs(c, v, wires, e, mm, k + 1, r);
            lemma_chain(
                c.g,
                v,
                run.times,
                r.times,
                times_of(c.edge_arcs(v, wires, e, mm, k + 1, r)),
            );
        }
    }
}

pub(crate) proof fn lemma_fanin_edges(c: CalcView, v: int, wires: Seq<usize>, fanin: Seq<usize>, i: int, run: Run)
    requires
        c.g.valid(),
        c.g.libs_valid(),
        wires_from(c.g, v, wires),
        delays::all_into(c.g, fanin, v),
        i <= fanin.len(),
        spans(run.times, c.g),
    ensures
        differ_at(c.g, v, run.times, times_of(c.fanin_edges(v, wires, fanin, i, run))),
        c.fanin_edges(v, wires, fanin, i, run) is Ok ==> forall|j: int|
            0 <= j < i ==> c.g.role(#[trigger] fanin[j] as int) != Some(Role::LatchDtoQ),
    decreases i,
{
    if i > 0 {
        let e = fanin[i - 1] as int;
        assert(fanin[i - 1] < c.g.edges.len() && c.g.edges[e].to == v);
        if c.g.edges[e].kind is Wire {
            lemma_fanin_edges(c, v, wires, fanin, i - 1, run);
        } else if !(c.g.arc_set(e).role is LatchDtoQ) {
            lemma_edge_arcs(c, v, wires, e, 0, 0, run);
            if let Ok(r) = c.edge_arcs(v, wires, e, 0, 0, run) {
                lemma_fanin_edges(c, v, wires, fanin, i - 1, r);
                lemma_chain(
                    c.g,
                    v,
                    run.times,
                    r.times,
                    times_of(c.fanin_edges(v, wires, fanin, i - 1, r)),
                );
            }
        }
    }
}

pub(crate) proof fn lemma_clear_wires(c: CalcView, v: int, wires: Seq<usize>, k: int, rf: int, mm: int, t: Times)
    requires
        c.g.valid(),
        wires_from(c.g, v, wires),
        0 <= rf < 2,
        0 <= mm < 2,
        spans(t, c.g),
    ensures
        differ_at_loads(c.g, v, t, c.clear_wires(wires, k, rf, mm, t)),
    decreases wires.len() - k,
{
    if 0 <= k < wires.len() {
        let w = wires[k] as int;
        assert(c.g.edge_valid(c.g.edges[w]));
        let next = t.with_delay(w, rf, mm, F32(0)).with_slew(c.g.edges[w].to as int, rf, mm, F32(0));
        if t.fits(c.g) {
            lemma_delay_fits(t, c.g, w, rf, mm, F32(0));
            lemma_slew_fits(t.with_delay(w, rf, mm, F32(0)), c.g, c.g.edges[w].to as int, rf, mm, F32(0));
        }
        lemma_set_load(c.g, v, t, next, w);
        lemma_clear_wires(c, v, wires, k + 1, rf, mm, next);
        lemma_loads_chain(c.g, v, t, next, c.clear_wires(wires, k + 1, rf, mm, next));
    }
}

proof fn lemma_clear_undriven(c: CalcView, v: int, wires: Seq<usize>, fanin: Seq<usize>, corner: int, t: Times)
    requires
        c.g.valid(),
        wires_from(c.g, v, wires),
        0 <= v < c.g.vertices.len(),
        spans(t, c.g),
    ensures
        differ_at(c.g, v, t, c.clear_undriven(v, wires, fanin, corner, t)),
    decreases 4 - corner,
{
    if 0 <= corner < 4 {
        let (rf, mm) = (corner / 2, corner % 2);
        let cleared = t.with_slew(v, rf, mm, F32(0));
        lemma_clear_wires(c, v, wires, 0, rf, mm, cleared);
        let wired_too = c.clear_wires(wires, 0, rf, mm, cleared);
        if t.fits(c.g) {
            lemma_slew_fits(t, c.g, v, rf, mm, F32(0));
        }
        assert(differ_at(c.g, v, t, cleared));
        lemma_loads_are_local(c.g, v, cleared, wired_too);
        lemma_chain(c.g, v, t, cleared, wired_too);
        let next = if c.drives(fanin, rf) {
            t
        } else {
            wired_too
        };
        lemma_clear_undriven(c, v, wires, fanin, corner + 1, next);
        lemma_chain(c.g, v, t, next, c.clear_undriven(v, wires, fanin, corner + 1, next));
    }
}

proof fn lemma_wires_among_from(g: GraphView, edges: Seq<usize>, v: int)
    requires
        graph::all_below(edges, g.edges.len()),
        forall|i: int| 0 <= i < edges.len() ==> g.edges[#[trigger] edges[i] as int].from == v,
    ensures
        wires_from(g, v, delays::wires_among(g, edges)),
    decreases edges.len(),
{
    if edges.len() > 0 {
        let less = edges.drop_last();
        assert forall|i: int| 0 <= i < less.len() implies (#[trigger] less[i]) < g.edges.len()
            && g.edges[less[i] as int].from == v by {
            assert(less[i] == edges[i]);
        }
        lemma_wires_among_from(g, less, v);
        assert(edges[edges.len() - 1] < g.edges.len());
    }
}

/// The wires out of a vertex, and the propagating edges into it.
pub proof fn lemma_lists(g: GraphView, v: int)
    requires
        g.valid(),
        0 <= v < g.vertices.len(),
    ensures
        wires_from(g, v, delays::wires_among(g, g.out_edges[v])),
        delays::all_into(g, delays::propagating(g, g.in_edges[v]), v),
{
    graph::lemma_edges_at(g.edges, v, false);
    graph::lemma_edges_at(g.edges, v, true);
    assert(g.out_edges[v] == graph::edges_at(g.edges, v, false));
    assert(g.in_edges[v] == graph::edges_at(g.edges, v, true));
    lemma_wires_among_from(g, g.out_edges[v], v);
    let ins = g.in_edges[v];
    assert forall|i: int| 0 <= i < ins.len() implies (#[trigger] ins[i]) < g.edges.len()
        && g.edges[ins[i] as int].to == v by {}
    delays::lemma_propagating(g, ins, v);
}

/// Visiting a vertex sets its slew, its loads' slews, its wires' delays and the delays of its
/// gate edges, and nothing else.
pub proof fn lemma_visit_is_local(c: CalcView, v: int, run: Run)
    requires
        c.g.valid(),
        c.g.libs_valid(),
        0 <= v < c.g.vertices.len(),
        spans(run.times, c.g),
    ensures
        differ_at(c.g, v, run.times, times_of(c.visit(v, run))),
{
    lemma_lists(c.g, v);
    let fanin = delays::propagating(c.g, c.g.in_edges[v]);
    let wires = delays::wires_among(c.g, c.g.out_edges[v]);
    let t = run.times;
    if !c.g.vertices[v].is_driver {
        assert(differ_at(c.g, v, t, t.with_slews(v, delays::zero_pair())));
    } else if fanin.len() == 0 {
        let zeroed = t.with_slews(v, delays::zero_pair());
        assert(differ_at(c.g, v, t, zeroed));
        lemma_root_corners(c, v, wires, 0, zeroed);
        let after = c.root_corners(v, wires, 0, zeroed);
        lemma_loads_are_local(c.g, v, zeroed, after);
        lemma_chain(c.g, v, t, zeroed, after);
    } else {
        lemma_driven_is_local(c, v, wires, fanin, run);
    }
}

proof fn lemma_driven_is_local(c: CalcView, v: int, wires: Seq<usize>, fanin: Seq<usize>, run: Run)
    requires
        c.g.valid(),
        c.g.libs_valid(),
        0 <= v < c.g.vertices.len(),
        wires_from(c.g, v, wires),
        delays::all_into(c.g, fanin, v),
        spans(run.times, c.g),
    ensures
        differ_at(c.g, v, run.times, times_of(c.driven(v, wires, fanin, run))),
{
    let t = run.times;
    let inited = c.init_wires(wires, 0, t);
    let start = inited.with_slews(v, delays::initial_pair());
    lemma_init_wires(c, v, wires, 0, t);
    lemma_loads_are_local(c.g, v, t, inited);
    assert(differ_at(c.g, v, inited, start));
    lemma_chain(c.g, v, t, inited, start);
    let n = fanin.len() as int;
    lemma_fanin_edges(c, v, wires, fanin, n, run.at(start));
    let mid = times_of(c.fanin_edges(v, wires, fanin, n, run.at(start)));
    lemma_chain(c.g, v, t, start, mid);
    if let Ok(r) = c.fanin_edges(v, wires, fanin, n, run.at(start)) {
        lemma_clear_undriven(c, v, wires, fanin, 0, r.times);
        lemma_chain(c.g, v, t, mid, c.clear_undriven(v, wires, fanin, 0, r.times));
    }
}

/// A corner of a driver at 0: its slew, its wires' delays and its loads' slews.
pub open spec fn zero_at(g: GraphView, v: int, wires: Seq<usize>, t: Times, rf: int, mm: int) -> bool {
    &&& t.slew[v][rf][mm] == F32(0)
    &&& forall|i: int|
        0 <= i < wires.len() ==> t.delay[(#[trigger] wires[i]) as int][rf][mm] == F32(0)
            && t.slew[g.edges[wires[i] as int].to as int][rf][mm] == F32(0)
}

/// Times that are alike at every corner but one, and where one is 0 at that corner the other is too.
pub(crate) open spec fn zeroed(g: GraphView, a: Times, b: Times, rf: int, mm: int) -> bool {
    &&& a.fits(g)
    &&& b.fits(g)
    &&& forall|u: int, r: int, m: int|
        0 <= u < g.vertices.len() && 0 <= r < 2 && 0 <= m < 2 ==> {
            ||| #[trigger] b.slew[u][r][m] == a.slew[u][r][m]
            ||| r == rf && m == mm && b.slew[u][r][m] == F32(0)
        }
    &&& forall|e: int, r: int, m: int|
        0 <= e < g.edges.len() && 0 <= r < 2 && 0 <= m < 2 && g.edges[e].kind is Wire ==> {
            ||| #[trigger] b.delay[e][r][m] == a.delay[e][r][m]
            ||| r == rf && m == mm && b.delay[e][r][m] == F32(0)
        }
}

proof fn lemma_zeroed_chain(g: GraphView, a: Times, b: Times, c: Times, rf: int, mm: int)
    requires
        zeroed(g, a, b, rf, mm),
        zeroed(g, b, c, rf, mm),
    ensures
        zeroed(g, a, c, rf, mm),
{
    assert forall|u: int, r: int, m: int| 0 <= u < g.vertices.len() && 0 <= r < 2 && 0 <= m < 2 implies {
        ||| #[trigger] c.slew[u][r][m] == a.slew[u][r][m]
        ||| r == rf && m == mm && c.slew[u][r][m] == F32(0)
    } by {
        assert(b.slew[u][r][m] == a.slew[u][r][m] || (r == rf && m == mm && b.slew[u][r][m] == F32(0)));
    }
    assert forall|e: int, r: int, m: int|
        0 <= e < g.edges.len() && 0 <= r < 2 && 0 <= m < 2 && g.edges[e].kind is Wire implies {
        ||| #[trigger] c.delay[e][r][m] == a.delay[e][r][m]
        ||| r == rf && m == mm && c.delay[e][r][m] == F32(0)
    } by {
        assert(b.delay[e][r][m] == a.delay[e][r][m] || (r == rf && m == mm && b.delay[e][r][m] == F32(0)));
    }
}

/// What is 0 stays 0 while a corner is zeroed.
proof fn lemma_zero_stays(g: GraphView, v: int, wires: Seq<usize>, a: Times, b: Times, rf: int, mm: int, r: int, m: int)
    requires
        g.valid(),
        0 <= v < g.vertices.len(),
        wires_from(g, v, wires),
        zeroed(g, a, b, rf, mm),
        0 <= r < 2,
        0 <= m < 2,
        zero_at(g, v, wires, a, r, m),
    ensures
        zero_at(g, v, wires, b, r, m),
{
    assert(b.slew[v][r][m] == a.slew[v][r][m] || b.slew[v][r][m] == F32(0));
    assert forall|i: int| 0 <= i < wires.len() implies b.delay[(#[trigger] wires[i]) as int][r][m] == F32(0)
        && b.slew[g.edges[wires[i] as int].to as int][r][m] == F32(0) by {
        let w = wires[i] as int;
        assert(g.edge_valid(g.edges[w]));
        assert(a.delay[w][r][m] == F32(0));
        assert(b.delay[w][r][m] == a.delay[w][r][m] || b.delay[w][r][m] == F32(0));
        let u = g.edges[w].to as int;
        assert(b.slew[u][r][m] == a.slew[u][r][m] || b.slew[u][r][m] == F32(0));
    }
}

pub(crate) proof fn lemma_clear_wires_zeroes(c: CalcView, v: int, wires: Seq<usize>, k: int, rf: int, mm: int, t: Times)
    requires
        c.g.valid(),
        wires_from(c.g, v, wires),
        0 <= k <= wires.len(),
        0 <= rf < 2,
        0 <= mm < 2,
        t.fits(c.g),
    ensures
        zeroed(c.g, t, c.clear_wires(wires, k, rf, mm, t), rf, mm),
        forall|i: int|
            k <= i < wires.len() ==> c.clear_wires(wires, k, rf, mm, t).delay[(#[trigger] wires[i]) as int][rf][mm]
                == F32(0) && c.clear_wires(wires, k, rf, mm, t).slew[c.g.edges[wires[i] as int].to as int][rf][mm]
                == F32(0),
    decreases wires.len() - k,
{
    if k < wires.len() {
        let w = wires[k] as int;
        let u = c.g.edges[w].to as int;
        assert(c.g.edge_valid(c.g.edges[w]));
        let first = t.with_delay(w, rf, mm, F32(0));
        let next = first.with_slew(u, rf, mm, F32(0));
        lemma_delay_fits(t, c.g, w, rf, mm, F32(0));
        lemma_slew_fits(first, c.g, u, rf, mm, F32(0));
        assert(zeroed(c.g, t, next, rf, mm)) by {
            assert forall|x: int, r: int, m: int|
                0 <= x < c.g.vertices.len() && 0 <= r < 2 && 0 <= m < 2 implies {
                ||| #[trigger] next.slew[x][r][m] == t.slew[x][r][m]
                ||| r == rf && m == mm && next.slew[x][r][m] == F32(0)
            } by {
                assert(t.slew[x].len() == 2 && t.slew[x][0].len() == 2 && t.slew[x][1].len() == 2);
            }
            assert forall|e: int, r: int, m: int|
                0 <= e < c.g.edges.len() && 0 <= r < 2 && 0 <= m < 2 && c.g.edges[e].kind is Wire implies {
                ||| #[trigger] next.delay[e][r][m] == t.delay[e][r][m]
                ||| r == rf && m == mm && next.delay[e][r][m] == F32(0)
            } by {
                assert(t.delay[e].len() == 2 && t.delay[e][r].len() == 2);
            }
        }
        assert(t.delay[w].len() == 2 && t.delay[w][rf].len() == 2);
        assert(t.slew[u].len() == 2 && t.slew[u][0].len() == 2 && t.slew[u][1].len() == 2);
        assert(next.delay[w][rf][mm] == F32(0));
        assert(next.slew[u][rf][mm] == F32(0));
        lemma_clear_wires_zeroes(c, v, wires, k + 1, rf, mm, next);
        let after = c.clear_wires(wires, k + 1, rf, mm, next);
        lemma_zeroed_chain(c.g, t, next, after, rf, mm);
        assert(after.delay[w][rf][mm] == next.delay[w][rf][mm] || after.delay[w][rf][mm] == F32(0));
        assert(after.slew[u][rf][mm] == next.slew[u][rf][mm] || after.slew[u][rf][mm] == F32(0));
    }
}

/// Every corner before the `corner`th of a transition that no arc drives is at 0.
spec fn cleared(c: CalcView, v: int, wires: Seq<usize>, fanin: Seq<usize>, corner: int, t: Times) -> bool {
    forall|rf: int, mm: int|
        0 <= rf < 2 && 0 <= mm < 2 && 2 * rf + mm < corner && !c.drives(fanin, rf) ==> #[trigger] zero_at(
            c.g,
            v,
            wires,
            t,
            rf,
            mm,
        )
}

proof fn lemma_clear_undriven_zeroes(
    c: CalcView,
    v: int,
    wires: Seq<usize>,
    fanin: Seq<usize>,
    corner: int,
    t: Times,
)
    requires
        c.g.valid(),
        0 <= v < c.g.vertices.len(),
        wires_from(c.g, v, wires),
        0 <= corner <= 4,
        t.fits(c.g),
        cleared(c, v, wires, fanin, corner, t),
    ensures
        cleared(c, v, wires, fanin, 4, c.clear_undriven(v, wires, fanin, corner, t)),
    decreases 4 - corner,
{
    if corner < 4 {
        let (rf, mm) = (corner / 2, corner % 2);
        if c.drives(fanin, rf) {
            lemma_clear_undriven_zeroes(c, v, wires, fanin, corner + 1, t);
        } else {
            let first = t.with_slew(v, rf, mm, F32(0));
            lemma_slew_fits(t, c.g, v, rf, mm, F32(0));
            assert(zeroed(c.g, t, first, rf, mm)) by {
                assert forall|x: int, r: int, m: int|
                    0 <= x < c.g.vertices.len() && 0 <= r < 2 && 0 <= m < 2 implies {
                    ||| #[trigger] first.slew[x][r][m] == t.slew[x][r][m]
                    ||| r == rf && m == mm && first.slew[x][r][m] == F32(0)
                } by {
                    assert(t.slew[x].len() == 2 && t.slew[x][0].len() == 2 && t.slew[x][1].len() == 2);
                }
            }
            assert(t.slew[v].len() == 2 && t.slew[v][0].len() == 2 && t.slew[v][1].len() == 2);
            assert(first.slew[v][rf][mm] == F32(0));
            lemma_clear_wires_zeroes(c, v, wires, 0, rf, mm, first);
            let next = c.clear_wires(wires, 0, rf, mm, first);
            lemma_zeroed_chain(c.g, t, first, next, rf, mm);
            assert(next.slew[v][rf][mm] == first.slew[v][rf][mm] || next.slew[v][rf][mm] == F32(0));
            assert(zero_at(c.g, v, wires, next, rf, mm));
            assert forall|r: int, m: int|
                0 <= r < 2 && 0 <= m < 2 && 2 * r + m < corner + 1 && !c.drives(fanin, r) implies #[trigger] zero_at(
                c.g,
                v,
                wires,
                next,
                r,
                m,
            ) by {
                if 2 * r + m < corner {
                    assert(zero_at(c.g, v, wires, t, r, m));
                    lemma_zero_stays(c.g, v, wires, t, next, rf, mm, r, m);
                }
            }
            lemma_clear_undriven_zeroes(c, v, wires, fanin, corner + 1, next);
        }
    }
}

/// What a driver's visit leaves: a root driver's slew is 0; otherwise every transition that no arc
/// drives is 0 in its slew and in its wires' delays, and no arc is a latch's data arc.
pub open spec fn settled(c: CalcView, v: int, t: Times) -> bool {
    let fanin = delays::propagating(c.g, c.g.in_edges[v]);
    let wires = delays::wires_among(c.g, c.g.out_edges[v]);
    c.g.vertices[v].is_driver ==> if fanin.len() == 0 {
        t.slew[v] == seq![delays::zero_pair(), delays::zero_pair()]
    } else {
        &&& forall|rf: int, mm: int|
            0 <= rf < 2 && 0 <= mm < 2 && !c.drives(fanin, rf) ==> #[trigger] t.slew[v][rf][mm] == F32(0)
        &&& forall|rf: int, mm: int, i: int|
            0 <= rf < 2 && 0 <= mm < 2 && 0 <= i < wires.len() && !c.drives(fanin, rf)
                ==> #[trigger] t.delay[wires[i] as int][rf][mm] == F32(0)
        &&& forall|j: int|
            0 <= j < fanin.len() ==> c.g.role(#[trigger] fanin[j] as int) != Some(Role::LatchDtoQ)
    }
}

/// A driver's visit settles it; a transition that no arc drives is 0 at its loads too.
pub proof fn lemma_visit_settles(c: CalcView, v: int, run: Run)
    requires
        c.g.valid(),
        c.g.libs_valid(),
        0 <= v < c.g.vertices.len(),
        run.times.fits(c.g),
    ensures
        c.visit(v, run) matches Ok(r) ==> {
            let fanin = delays::propagating(c.g, c.g.in_edges[v]);
            let wires = delays::wires_among(c.g, c.g.out_edges[v]);
            &&& settled(c, v, r.times)
            &&& forall|rf: int, mm: int|
                0 <= rf < 2 && 0 <= mm < 2 && c.g.vertices[v].is_driver && fanin.len() > 0 && !c.drives(fanin, rf)
                    ==> #[trigger] zero_at(c.g, v, wires, r.times, rf, mm)
        },
{
    lemma_lists(c.g, v);
    let fanin = delays::propagating(c.g, c.g.in_edges[v]);
    let wires = delays::wires_among(c.g, c.g.out_edges[v]);
    let t = run.times;
    if !c.g.vertices[v].is_driver {
    } else if fanin.len() == 0 {
        let zeros = t.with_slews(v, delays::zero_pair());
        lemma_root_corners(c, v, wires, 0, zeros);
        let after = c.root_corners(v, wires, 0, zeros);
        assert(!wired(c.g, v, v)) by {
            if wired(c.g, v, v) {
                let e = choose|e: int|
                    0 <= e < c.g.edges.len() && (#[trigger] c.g.edges[e]).kind is Wire && c.g.edges[e].from == v
                        && c.g.edges[e].to == v;
                assert(c.g.edge_valid(c.g.edges[e]));
            }
        }
        assert(zeros.slew[v] == after.slew[v]);
    } else if let Ok(r) = c.visit(v, run) {
        let inited = c.init_wires(wires, 0, t);
        let start = inited.with_slews(v, delays::initial_pair());
        lemma_init_wires(c, v, wires, 0, t);
        assert(start.fits(c.g));
        let n = fanin.len() as int;
        lemma_fanin_edges(c, v, wires, fanin, n, run.at(start));
        let mid = c.fanin_edges(v, wires, fanin, n, run.at(start))->Ok_0;
        assert(mid.times.fits(c.g));
        lemma_clear_undriven_zeroes(c, v, wires, fanin, 0, mid.times);
        assert forall|rf: int, mm: int| 0 <= rf < 2 && 0 <= mm < 2 && !c.drives(fanin, rf) implies #[trigger] zero_at(
            c.g,
            v,
            wires,
            r.times,
            rf,
            mm,
        ) by {
            assert(zero_at(c.g, v, wires, c.clear_undriven(v, wires, fanin, 0, mid.times), rf, mm));
        }
        assert forall|rf: int, mm: int| 0 <= rf < 2 && 0 <= mm < 2 && !c.drives(fanin, rf) implies
            #[trigger] r.times.slew[v][rf][mm] == F32(0) by {
            assert(zero_at(c.g, v, wires, r.times, rf, mm));
        }
        assert forall|rf: int, mm: int, i: int|
            0 <= rf < 2 && 0 <= mm < 2 && 0 <= i < wires.len() && !c.drives(fanin, rf) implies
            #[trigger] r.times.delay[wires[i] as int][rf][mm] == F32(0) by {
            assert(zero_at(c.g, v, wires, r.times, rf, mm));
        }
    }
}

/// Times that are alike in a vertex's slew and in its wires' delays.
spec fn alike_at(g: GraphView, v: int, a: Times, b: Times) -> bool {
    &&& spans(a, g)
    &&& spans(b, g)
    &&& a.slew[v] == b.slew[v]
    &&& forall|e: int|
        0 <= e < g.edges.len() && g.edges[e].kind is Wire && g.edges[e].from == v ==> #[trigger] a.delay[e]
            == b.delay[e]
}

proof fn lemma_stays_settled(c: CalcView, v: int, a: Times, b: Times)
    requires
        c.g.valid(),
        0 <= v < c.g.vertices.len(),
        alike_at(c.g, v, a, b),
        settled(c, v, a),
    ensures
        settled(c, v, b),
{
    lemma_lists(c.g, v);
    let wires = delays::wires_among(c.g, c.g.out_edges[v]);
    assert forall|i: int| 0 <= i < wires.len() implies a.delay[(#[trigger] wires[i]) as int]
        == b.delay[wires[i] as int] by {
        assert(wires[i] < c.g.edges.len());
        assert(a.delay[wires[i] as int] == b.delay[wires[i] as int]);
    }
    let fanin = delays::propagating(c.g, c.g.in_edges[v]);
    if c.g.vertices[v].is_driver && fanin.len() > 0 {
        assert forall|rf: int, mm: int| 0 <= rf < 2 && 0 <= mm < 2 && !c.drives(fanin, rf) implies
            #[trigger] b.slew[v][rf][mm] == F32(0) by {
            assert(a.slew[v][rf][mm] == F32(0));
        }
        assert forall|rf: int, mm: int, i: int|
            0 <= rf < 2 && 0 <= mm < 2 && 0 <= i < wires.len() && !c.drives(fanin, rf) implies
            #[trigger] b.delay[wires[i] as int][rf][mm] == F32(0) by {
            assert(a.delay[wires[i] as int][rf][mm] == F32(0));
        }
    }
}

/// A wire never ends at a driver.
pub(crate) proof fn lemma_no_wire_to_driver(g: GraphView, v: int, u: int)
    requires
        g.valid(),
        g.vertices[u].is_driver,
    ensures
        !wired(g, v, u),
{
    if wired(g, v, u) {
        let e = choose|e: int|
            0 <= e < g.edges.len() && (#[trigger] g.edges[e]).kind is Wire && g.edges[e].from == v && g.edges[e].to
                == u;
        assert(g.edge_valid(g.edges[e]));
    }
}

proof fn lemma_visit_all_settles(c: CalcView, order: Seq<usize>, i: int, run: Run)
    requires
        c.g.valid(),
        c.g.libs_valid(),
        graph::all_below(order, c.g.vertices.len()),
        order.no_duplicates(),
        0 <= i <= order.len(),
        run.times.fits(c.g),
    ensures
        c.visit_all(order, i, run) matches Ok(r) ==> {
            &&& r.times.fits(c.g)
            &&& forall|j: int| i <= j < order.len() ==> settled(c, (#[trigger] order[j]) as int, r.times)
            &&& forall|j: int|
                0 <= j < i && c.g.vertices[order[j] as int].is_driver ==> alike_at(
                    c.g,
                    (#[trigger] order[j]) as int,
                    run.times,
                    r.times,
                )
        },
    decreases order.len() - i,
{
    if i < order.len() {
        let v = order[i] as int;
        if let Ok(mid) = c.visit(v, run) {
            lemma_visit_is_local(c, v, run);
            lemma_visit_settles(c, v, run);
            lemma_visit_all_settles(c, order, i + 1, mid);
            if let Ok(r) = c.visit_all(order, i + 1, mid) {
                if c.g.vertices[v].is_driver {
                    assert(alike_at(c.g, order[i] as int, mid.times, r.times));
                    lemma_stays_settled(c, v, mid.times, r.times);
                }
                assert forall|j: int| i <= j < order.len() implies settled(
                    c,
                    (#[trigger] order[j]) as int,
                    r.times,
                ) by {}
                assert forall|j: int| 0 <= j < i && c.g.vertices[order[j] as int].is_driver implies alike_at(
                    c.g,
                    (#[trigger] order[j]) as int,
                    run.times,
                    r.times,
                ) by {
                    let u = order[j] as int;
                    lemma_no_wire_to_driver(c.g, v, u);
                    assert(alike_at(c.g, order[j] as int, mid.times, r.times));
                    assert(run.times.slew[u] == mid.times.slew[u]);
                    assert forall|e: int|
                        0 <= e < c.g.edges.len() && c.g.edges[e].kind is Wire && c.g.edges[e].from == u implies
                        #[trigger] run.times.delay[e] == r.times.delay[e] by {
                        assert(owner(c.g, e) != v);
                        assert(mid.times.delay[e] == r.times.delay[e]);
                    }
                }
            }
        }
    }
}

proof fn lemma_check_arcs(c: CalcView, e: int, k: int, mm: int, run: Run)
    requires
        0 <= e < c.g.edges.len(),
        spans(run.times, c.g),
    ensures
        ({
            let after = times_of(c.check_arcs(e, k, mm, run));
            &&& after.slew == run.times.slew
            &&& after.delay.len() == run.times.delay.len()
            &&& forall|f: int| 0 <= f < after.delay.len() && f != e ==> #[trigger] after.delay[f] == run.times.delay[f]
        }),
    decreases c.g.arc_set(e).arcs.len() - k, 2 - mm,
{
    let arcs = c.g.arc_set(e).arcs;
    if k < 0 || k >= arcs.len() || mm < 0 {
    } else if mm >= 2 || !(arcs[k].model is Check) {
        lemma_check_arcs(c, e, k + 1, 0, run);
    } else if let Some(x) = c.check_delay(e, arcs[k], arcs[k].model->Check_0, mm, run.times) {
        let next = run.times.with_delay(e, k, mm, x);
        lemma_check_arcs(c, e, k, mm + 1, run.at(next));
        let after = times_of(c.check_arcs(e, k, mm + 1, run.at(next)));
        assert forall|f: int| 0 <= f < after.delay.len() && f != e implies #[trigger] after.delay[f]
            == run.times.delay[f] by {
            assert(after.delay[f] == next.delay[f]);
        }
    }
}

/// Timing checks set their own delays and nothing else.
pub proof fn lemma_checks_are_local(c: CalcView, e: int, run: Run)
    requires
        0 <= e <= c.g.edges.len(),
        spans(run.times, c.g),
    ensures
        ({
            let after = times_of(c.check_edges(e, run));
            &&& after.slew == run.times.slew
            &&& after.delay.len() == run.times.delay.len()
            &&& forall|f: int|
                0 <= f < after.delay.len() && !c.g.checks(f) ==> #[trigger] after.delay[f] == run.times.delay[f]
        }),
    decreases c.g.edges.len() - e,
{
    if e < c.g.edges.len() {
        if !c.g.checks(e) {
            lemma_checks_are_local(c, e + 1, run);
        } else {
            lemma_check_arcs(c, e, 0, 0, run);
            if let Ok(r) = c.check_arcs(e, 0, 0, run) {
                lemma_checks_are_local(c, e + 1, r);
                let after = times_of(c.check_edges(e + 1, r));
                assert forall|f: int| 0 <= f < after.delay.len() && !c.g.checks(f) implies #[trigger] after.delay[f]
                    == run.times.delay[f] by {
                    assert(after.delay[f] == r.times.delay[f]);
                }
            }
        }
    }
}

/// Once delays are calculated every driver is settled: a root driver's slew is 0, a transition that
/// no arc drives has slew 0 and wire delays 0, and no driver has a latch's data arc into it.
pub proof fn lemma_delays_settle_drivers(c: CalcView, run: Run)
    requires
        c.g.valid(),
        c.g.libs_valid(),
        run.times.fits(c.g),
    ensures
        c.delays(run) matches Ok(r) ==> forall|v: int|
            0 <= v < c.g.vertices.len() ==> #[trigger] settled(c, v, r.times),
{
    topology::lemma_order_is_topological(c.g);
    if let Some(order) = topology::order_of(c.g) {
        lemma_visit_all_settles(c, order, 0, run);
        if let Ok(mid) = c.visit_all(order, 0, run) {
            lemma_checks_are_local(c, 0, mid);
            if let Ok(r) = c.check_edges(0, mid) {
                assert forall|v: int| 0 <= v < c.g.vertices.len() implies #[trigger] settled(c, v, r.times) by {
                    topology::lemma_all_placed(order, c.g.vertices.len(), v as usize);
                    let j = choose|j: int| 0 <= j < order.len() && order[j] == v as usize;
                    assert(settled(c, order[j] as int, mid.times));
                    assert forall|e: int|
                        0 <= e < c.g.edges.len() && c.g.edges[e].kind is Wire && c.g.edges[e].from == v implies
                        #[trigger] mid.times.delay[e] == r.times.delay[e] by {
                        assert(!c.g.checks(e));
                        assert(r.times.delay[e] == mid.times.delay[e]);
                    }
                    lemma_stays_settled(c, v, mid.times, r.times);
                }
            }
        }
    }
}

/// What arc `j` of check `e` ends with for min or max `n`, of the arcs from arc `k` and `mm` on: its
/// table at the slews, or what it was where it lies before them.
proof fn lemma_check_arc(c: CalcView, e: int, k: int, mm: int, run: Run, j: int, n: int)
    requires
        c.g.valid(),
        0 <= e < c.g.edges.len(),
        c.g.edges[e].kind is Gate,
        run.times.fits(c.g),
        0 <= k,
        0 <= mm,
        0 <= j < c.g.arc_set(e).arcs.len(),
        c.g.arc_set(e).arcs[j].model is Check,
        0 <= n < 2,
        c.check_arcs(e, k, mm, run) is Ok,
    ensures
        ({
            let after = c.check_arcs(e, k, mm, run)->Ok_0.times;
            let arc = c.g.arc_set(e).arcs[j];
            &&& after.fits(c.g)
            &&& if j > k || (j == k && n >= mm) {
                c.check_delay(e, arc, arc.model->Check_0, n, run.times) == Some(after.delay[e][j][n])
            } else {
                after.delay[e][j][n] == run.times.delay[e][j][n]
            }
        }),
    decreases c.g.arc_set(e).arcs.len() - k, 2 - mm,
{
    let arcs = c.g.arc_set(e).arcs;
    if k >= arcs.len() {
    } else if mm >= 2 || !(arcs[k].model is Check) {
        lemma_check_arc(c, e, k + 1, 0, run, j, n);
    } else if let Some(x) = c.check_delay(e, arcs[k], arcs[k].model->Check_0, mm, run.times) {
        assert(c.g.edge_valid(c.g.edges[e]));
        let next = run.times.with_delay(e, k, mm, x);
        lemma_delay_fits(run.times, c.g, e, k, mm, x);
        assert(run.times.delay[e].len() == arcs.len());
        assert(run.times.delay[e][k].len() == 2);
        lemma_check_arc(c, e, k, mm + 1, run.at(next), j, n);
        assert(next.slew == run.times.slew);
        assert(c.check_delay(e, arcs[j], arcs[j].model->Check_0, n, next) == c.check_delay(
            e,
            arcs[j],
            arcs[j].model->Check_0,
            n,
            run.times,
        ));
        assert(j != k || n != mm ==> next.delay[e][j][n] == run.times.delay[e][j][n]);
    }
}

/// The checks from edge `f` on leave an edge before it.
proof fn lemma_later_checks(c: CalcView, f: int, run: Run, e: int)
    requires
        0 <= e < f <= c.g.edges.len(),
        spans(run.times, c.g),
        c.check_edges(f, run) is Ok,
    ensures
        c.check_edges(f, run)->Ok_0.times.delay[e] == run.times.delay[e],
    decreases c.g.edges.len() - f,
{
    if f < c.g.edges.len() {
        if !c.g.checks(f) {
            lemma_later_checks(c, f + 1, run, e);
        } else {
            lemma_check_arcs(c, f, 0, 0, run);
            let r = c.check_arcs(f, 0, 0, run)->Ok_0;
            assert(r.times.delay[e] == run.times.delay[e]);
            lemma_later_checks(c, f + 1, r, e);
        }
    }
}

proof fn lemma_check_edge(c: CalcView, f: int, run: Run, e: int, j: int, n: int)
    requires
        c.g.valid(),
        c.g.checks(e),
        0 <= f <= e < c.g.edges.len(),
        run.times.fits(c.g),
        0 <= j < c.g.arc_set(e).arcs.len(),
        c.g.arc_set(e).arcs[j].model is Check,
        0 <= n < 2,
        c.check_edges(f, run) is Ok,
    ensures
        ({
            let after = c.check_edges(f, run)->Ok_0.times;
            let arc = c.g.arc_set(e).arcs[j];
            &&& after.slew == run.times.slew
            &&& c.check_delay(e, arc, arc.model->Check_0, n, run.times) == Some(after.delay[e][j][n])
        }),
    decreases c.g.edges.len() - f,
{
    lemma_checks_are_local(c, f, run);
    if !c.g.checks(f) {
        lemma_check_edge(c, f + 1, run, e, j, n);
    } else {
        let r = c.check_arcs(f, 0, 0, run)->Ok_0;
        lemma_check_arcs(c, f, 0, 0, run);
        lemma_check_arcs_fit(c, f, 0, 0, run);
        let arc = c.g.arc_set(e).arcs[j];
        if f == e {
            lemma_check_arc(c, e, 0, 0, run, j, n);
            lemma_later_checks(c, f + 1, r, e);
        } else {
            lemma_check_edge(c, f + 1, r, e, j, n);
            assert(c.check_delay(e, arc, arc.model->Check_0, n, run.times) == c.check_delay(
                e,
                arc,
                arc.model->Check_0,
                n,
                r.times,
            ));
        }
    }
}

proof fn lemma_check_arcs_fit(c: CalcView, e: int, k: int, mm: int, run: Run)
    requires
        c.g.valid(),
        0 <= e < c.g.edges.len(),
        c.g.edges[e].kind is Gate,
        run.times.fits(c.g),
        c.check_arcs(e, k, mm, run) is Ok,
    ensures
        c.check_arcs(e, k, mm, run)->Ok_0.times.fits(c.g),
    decreases c.g.arc_set(e).arcs.len() - k, 2 - mm,
{
    let arcs = c.g.arc_set(e).arcs;
    if k < 0 || k >= arcs.len() || mm < 0 {
    } else if mm >= 2 || !(arcs[k].model is Check) {
        lemma_check_arcs_fit(c, e, k + 1, 0, run);
    } else if let Some(x) = c.check_delay(e, arcs[k], arcs[k].model->Check_0, mm, run.times) {
        assert(c.g.edge_valid(c.g.edges[e]));
        lemma_delay_fits(run.times, c.g, e, k, mm, x);
        lemma_check_arcs_fit(c, e, k, mm + 1, run.at(run.times.with_delay(e, k, mm, x)));
    }
}

/// Once delays are calculated, the delay of each arc of a timing check is its table's value at the
/// slews at hand: the clock pin's of the opposite min/max, the data pin's of its own.
pub proof fn lemma_check_delays_read_the_final_slews(c: CalcView, run: Run, e: int, k: int, mm: int)
    requires
        c.g.valid(),
        c.g.libs_valid(),
        run.times.fits(c.g),
        c.delays(run) is Ok,
        0 <= e < c.g.edges.len(),
        c.g.checks(e),
        0 <= k < c.g.arc_set(e).arcs.len(),
        c.g.arc_set(e).arcs[k].model is Check,
        0 <= mm < 2,
    ensures
        ({
            let end = c.delays(run)->Ok_0.times;
            let arc = c.g.arc_set(e).arcs[k];
            let table = arc.model->Check_0;
            let clk = end.slew[c.g.edges[e].from as int][arc.from_rf as int][1 - mm];
            let data = end.slew[c.g.edges[e].to as int][arc.to_rf as int][mm];
            table.value_at(
                delays::check_pick(table, 0, clk, data),
                delays::check_pick(table, 1, clk, data),
                delays::check_pick(table, 2, clk, data),
            ) == Some(end.delay[e][k][mm])
        }),
{
    topology::lemma_order_is_topological(c.g);
    let order = topology::order_of(c.g)->0;
    let mid = c.visit_all(order, 0, run)->Ok_0;
    lemma_visit_all_settles(c, order, 0, run);
    lemma_check_edge(c, 0, mid, e, k, mm);
}

} // verus!
