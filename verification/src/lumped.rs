//! A driver without a parasitic is lumped: its wires have delay 0, and its loads its own slew.

use vstd::prelude::*;
use crate::delay_laws;
use crate::delay_order;
use crate::delays;
use crate::delays::{CalcView, Reduced, Run};
use crate::float32::F32;
use crate::float64::F64;
use crate::fuzzy;
use crate::graph::{GraphView, Times};
use crate::identities;
use crate::kept;
use crate::merges;
use crate::merges::Place;

verus! {

/// The library whose thresholds a driver's wires start from: its own, the default (first read) one
/// for a root.
pub open spec fn drive_library(c: CalcView, v: int) -> usize {
    if delays::propagating(c.g, c.g.in_edges[v]).len() == 0 {
        0
    } else {
        c.g.vertices[v].lib->0
    }
}

/// A driver drives no parasitic: its net has none, or none that is not dropped.
pub open spec fn lumped(c: CalcView, v: int, rf: int, mm: int) -> bool {
    if delays::propagating(c.g, c.g.in_edges[v]).len() == 0 {
        c.reduce(v, rf, mm) is None
    } else {
        c.arc_parasitic(v, rf, mm) is None
    }
}

/// A wire from a driver to a load whose thresholds are those of the driver.
pub open spec fn even_wire(c: CalcView, v: int, w: int) -> bool {
    kept::wire_of(c.g, v, w) && c.threshold_library(c.g.edges[w].to as int) == drive_library(c, v)
}

/// What is kept of a value and another.
spec fn merged(mm: int, x: F32, s: F32) -> F32 {
    if delays::worse(mm, x, s) {
        x
    } else {
        s
    }
}

proof fn lemma_merged_once(mm: int, x: F32, s: F32)
    ensures
        merged(mm, x, merged(mm, x, s)) == merged(mm, x, s),
{
    reveal(F32::is_lt);
}

proof fn lemma_zero_narrowed()
    ensures
        F64(0).narrowed() == F32(0),
{
    reveal(F64::narrowed);
}

proof fn lemma_zero_beats_initial(mm: int)
    requires
        0 <= mm < 2,
    ensures
        merged(mm, F32(0), delays::initial_pair()[mm]) == F32(0),
        merged(mm, F32(0), F32(0)) == F32(0),
{
    fuzzy::lemma_initial_values_are_beaten(F32(0));
}

/// The wires of an arc that drives no parasitic, at one of them and its load.
proof fn lemma_arc_wires(
    c: CalcView,
    v: int,
    wires: Seq<usize>,
    k: int,
    rf: int,
    mm: int,
    slew: F64,
    run: Run,
    y: int,
)
    requires
        c.g.valid(),
        delay_laws::wires_from(c.g, v, wires),
        0 <= k,
        0 <= rf < 2,
        0 <= mm < 2,
        run.times.fits(c.g),
        0 <= y < wires.len(),
        c.threshold_library(c.g.edges[wires[y] as int].to as int) == c.g.vertices[v].lib->0,
    ensures
        ({
            let after = c.arc_wires(v, wires, k, rf, mm, slew, None, None, run).times;
            let w = wires[y] as int;
            let u = c.g.edges[w].to as int;
            let (s, d) = (run.times.slew[u][rf][mm], run.times.delay[w][rf][mm]);
            let (p, q) = (merged(mm, slew.narrowed(), s), merged(mm, F32(0), d));
            &&& after.slew[u][rf][mm] == p || (k > y && after.slew[u][rf][mm] == s)
            &&& after.delay[w][rf][mm] == q || (k > y && after.delay[w][rf][mm] == d)
        }),
    decreases wires.len() - k,
{
    let w = wires[y] as int;
    assert(wires[y] < c.g.edges.len());
    assert(c.g.edge_valid(c.g.edges[w]));
    let u = c.g.edges[w].to as int;
    if k < wires.len() {
        let e = wires[k] as int;
        assert(wires[k] < c.g.edges.len());
        assert(c.g.edge_valid(c.g.edges[e]));
        let load = c.g.edges[e].to as int;
        let wire = (F64(0), slew.narrowed().widened());
        let (delay, load_slew) = c.adjust(c.g.vertices[v].lib->0, load, rf, wire);
        let t = run.times;
        let first = t.merge_slew(load, rf, mm, load_slew.narrowed());
        let next = first.merge_delay(e, rf, mm, delay.narrowed());
        merges::lemma_merge_slew(t, c.g, load, rf, mm, load_slew.narrowed(), Place::Slew(u, rf), mm, F32(0));
        merges::lemma_merge_delay(first, c.g, e, rf, mm, delay.narrowed(), Place::Slew(u, rf), mm, F32(0));
        assert(t.slew[load].len() == 2 && t.slew[load][rf].len() == 2);
        assert(first.delay[e].len() == 2 && first.delay[e][rf].len() == 2);
        identities::lemma_narrowed_once(slew);
        lemma_zero_narrowed();
        if load == u {
            assert(load_slew.narrowed() == slew.narrowed());
        }
        if e == w {
            assert(delay.narrowed() == F32(0));
        }
        let x = slew.narrowed();
        lemma_merged_once(mm, x, t.slew[u][rf][mm]);
        lemma_merged_once(mm, F32(0), t.delay[w][rf][mm]);
        assert(next.slew[u][rf][mm] == if load == u {
            merged(mm, x, t.slew[u][rf][mm])
        } else {
            t.slew[u][rf][mm]
        });
        assert(next.delay[w][rf][mm] == if e == w {
            merged(mm, F32(0), t.delay[w][rf][mm])
        } else {
            t.delay[w][rf][mm]
        });
        assert(c.arc_wires(v, wires, k, rf, mm, slew, None, None, run) == c.arc_wires(
            v,
            wires,
            k + 1,
            rf,
            mm,
            slew,
            None,
            None,
            run.at(next),
        ));
        lemma_arc_wires(c, v, wires, k + 1, rf, mm, slew, run.at(next), y);
    }
}

/// Times at which a driver and a load have the same slew, and the wire between them the initial
/// delay or none.
#[verifier::opaque]
spec fn level(g: GraphView, v: int, w: int, rf: int, mm: int, t: Times) -> bool {
    let u = g.edges[w].to as int;
    &&& t.slew[u][rf][mm] == t.slew[v][rf][mm]
    &&& t.delay[w][rf][mm] == delays::initial_pair()[mm] || t.delay[w][rf][mm] == F32(0)
}

/// The wire's delay is 0.
#[verifier::opaque]
spec fn still(t: Times, w: int, rf: int, mm: int) -> bool {
    t.delay[w][rf][mm] == F32(0)
}

/// What every driver's step asks of a wire.
#[verifier::opaque]
spec fn lumped_wire(c: CalcView, v: int, wires: Seq<usize>, y: int, rf: int, mm: int) -> bool {
    &&& c.g.valid()
    &&& c.g.libs_valid()
    &&& 0 <= v < c.g.vertices.len()
    &&& c.g.vertices[v].is_driver
    &&& delay_laws::wires_from(c.g, v, wires)
    &&& 0 <= y < wires.len()
    &&& c.threshold_library(c.g.edges[wires[y] as int].to as int) == c.g.vertices[v].lib->0
    &&& 0 <= rf < 2
    &&& 0 <= mm < 2
    &&& c.arc_parasitic(v, rf, mm) is None
}

proof fn lemma_gate_arc(
    c: CalcView,
    v: int,
    wires: Seq<usize>,
    e: int,
    k: int,
    n: int,
    run: Run,
    y: int,
    rf: int,
    mm: int,
)
    requires
        lumped_wire(c, v, wires, y, rf, mm),
        0 <= e < c.g.edges.len(),
        c.g.edges[e].kind is Gate,
        0 <= k < c.g.arc_set(e).arcs.len(),
        c.g.arc_set(e).arcs[k].model is Gate,
        0 <= n < 2,
        run.times.fits(c.g),
        c.gate_arc(v, wires, e, k, n, run) is Ok,
        level(c.g, v, wires[y] as int, rf, mm, run.times),
    ensures
        ({
            let after = c.gate_arc(v, wires, e, k, n, run)->Ok_0.times;
            let w = wires[y] as int;
            &&& after.fits(c.g)
            &&& level(c.g, v, w, rf, mm, after)
            &&& still(run.times, w, rf, mm) ==> still(after, w, rf, mm)
            &&& n == mm && c.g.arc_set(e).arcs[k].to_rf == rf ==> still(after, w, rf, mm)
        }),
{
    reveal(level);
    reveal(still);
    reveal(lumped_wire);
    let g = c.g;
    let w = wires[y] as int;
    assert(wires[y] < g.edges.len());
    assert(g.edge_valid(g.edges[w]));
    let u = g.edges[w].to as int;
    let arc = g.arc_set(e).arcs[k];
    let r = arc.to_rf as int;
    let in_slew = run.times.slew[g.edges[e].from as int][arc.from_rf as int][n];
    let pe = c.arc_parasitic(v, r, n);
    g.lemma_arc_timed(e, k);
    let (delay, slew, d) = merges::arc_result(c, v, e, k, n, run.times);
    let noted = match (d, pe) {
        (Some(s), Some((p, _))) => run.note(
            delays::gate_line(g.vertices[v].name, arc, in_slew, p, s, delay, slew),
        ),
        _ => run,
    };
    let x = slew.narrowed();
    let first = run.times.merge_slew(v, r, n, x);
    merges::lemma_merge_slew(run.times, g, v, r, n, x, Place::Slew(v, rf), mm, F32(0));
    let t = first.with_delay(e, k, n, delay.narrowed());
    assert(g.edge_valid(g.edges[e]));
    delay_laws::lemma_delay_fits(first, g, e, k, n, delay.narrowed());
    assert(run.times.slew[v].len() == 2 && run.times.slew[v][r].len() == 2);
    let start = noted.at(t);
    let after = c.arc_wires(v, wires, 0, r, n, slew, d, pe, start).times;
    assert(u != v);
    assert(t.slew[u] == run.times.slew[u]);
    assert(t.delay[w] == run.times.delay[w]);
    delay_laws::lemma_arc_wires(c, v, wires, 0, r, n, slew, d, pe, start);
    delay_laws::lemma_no_wire_to_driver(g, v, v);
    assert(start.times.slew[v] == after.slew[v]);
    lemma_zero_beats_initial(mm);
    if n == mm && r == rf {
        assert(pe is None && d is None);
        lemma_arc_wires(c, v, wires, 0, r, n, slew, start, y);
        assert(t.slew[v][rf][mm] == merged(mm, x, run.times.slew[v][rf][mm]));
    } else {
        kept::lemma_arc_wires_give(c, v, wires, 0, r, n, slew, d, pe, start, d, Place::Slew(u, rf), mm);
        kept::lemma_arc_wires_give(c, v, wires, 0, r, n, slew, d, pe, start, d, Place::Delay(w, rf), mm);
        assert(t.slew[v][rf][mm] == run.times.slew[v][rf][mm]);
    }
}

proof fn lemma_edge_arcs(
    c: CalcView,
    v: int,
    wires: Seq<usize>,
    e: int,
    n: int,
    k: int,
    run: Run,
    y: int,
    rf: int,
    mm: int,
    j: int,
)
    requires
        lumped_wire(c, v, wires, y, rf, mm),
        0 <= mm < 2,
        0 <= e < c.g.edges.len(),
        c.g.edges[e].kind is Gate,
        0 <= k,
        0 <= n <= 2,
        run.times.fits(c.g),
        c.edge_arcs(v, wires, e, n, k, run) is Ok,
        level(c.g, v, wires[y] as int, rf, mm, run.times),
    ensures
        ({
            let after = c.edge_arcs(v, wires, e, n, k, run)->Ok_0.times;
            let w = wires[y] as int;
            let arcs = c.g.arc_set(e).arcs;
            &&& after.fits(c.g)
            &&& level(c.g, v, w, rf, mm, after)
            &&& still(run.times, w, rf, mm) ==> still(after, w, rf, mm)
            &&& 0 <= j < arcs.len() && arcs[j].model is Gate && arcs[j].to_rf == rf && (n < mm || (n == mm && k <= j))
                ==> still(after, w, rf, mm)
        }),
    decreases 2 - n, c.g.arc_set(e).arcs.len() - k,
{
    let arcs = c.g.arc_set(e).arcs;
    let w = wires[y] as int;
    let end = c.edge_arcs(v, wires, e, n, k, run);
    if n >= 2 {
        assert(end->Ok_0 == run);
    } else if k >= arcs.len() {
        assert(end == c.edge_arcs(v, wires, e, n + 1, 0, run));
        lemma_edge_arcs(c, v, wires, e, n + 1, 0, run, y, rf, mm, j);
    } else if !(arcs[k].model is Gate) {
        assert(end == c.edge_arcs(v, wires, e, n, k + 1, run));
        lemma_edge_arcs(c, v, wires, e, n, k + 1, run, y, rf, mm, j);
    } else {
        let step = c.gate_arc(v, wires, e, k, n, run);
        assert(step is Ok);
        let r = step->Ok_0;
        assert(end == c.edge_arcs(v, wires, e, n, k + 1, r));
        lemma_gate_arc(c, v, wires, e, k, n, run, y, rf, mm);
        lemma_edge_arcs(c, v, wires, e, n, k + 1, r, y, rf, mm, j);
    }
}

proof fn lemma_fanin_edges(
    c: CalcView,
    v: int,
    wires: Seq<usize>,
    fanin: Seq<usize>,
    i: int,
    run: Run,
    y: int,
    rf: int,
    mm: int,
    x: int,
)
    requires
        lumped_wire(c, v, wires, y, rf, mm),
        0 <= mm < 2,
        delays::all_into(c.g, fanin, v),
        0 <= i <= fanin.len(),
        run.times.fits(c.g),
        c.fanin_edges(v, wires, fanin, i, run) is Ok,
        level(c.g, v, wires[y] as int, rf, mm, run.times),
    ensures
        ({
            let after = c.fanin_edges(v, wires, fanin, i, run)->Ok_0.times;
            let w = wires[y] as int;
            &&& level(c.g, v, w, rf, mm, after)
            &&& still(run.times, w, rf, mm) ==> still(after, w, rf, mm)
            &&& 0 <= x < i && delays::edge_drives(c.g, fanin[x] as int, rf) ==> still(after, w, rf, mm)
        }),
    decreases i,
{
    if i > 0 {
        let e = fanin[i - 1] as int;
        assert(fanin[i - 1] < c.g.edges.len() && c.g.edges[e].to == v);
        if c.g.edges[e].kind is Wire {
            lemma_fanin_edges(c, v, wires, fanin, i - 1, run, y, rf, mm, x);
        } else {
            let r = c.edge_arcs(v, wires, e, 0, 0, run)->Ok_0;
            let j = if delays::edge_drives(c.g, e, rf) {
                choose|j: int|
                    0 <= j < c.g.arc_set(e).arcs.len() && (#[trigger] c.g.arc_set(e).arcs[j]).model is Gate
                        && c.g.arc_set(e).arcs[j].to_rf == rf
            } else {
                0
            };
            lemma_edge_arcs(c, v, wires, e, 0, 0, run, y, rf, mm, j);
            lemma_fanin_edges(c, v, wires, fanin, i - 1, r, y, rf, mm, x);
        }
    }
}

/// A corner of a root driver's wires, at one of them and its load.
proof fn lemma_root_wires(
    c: CalcView,
    v: int,
    pe: Option<Reduced>,
    wires: Seq<usize>,
    k: int,
    r: int,
    m: int,
    t: Times,
    y: int,
    rf: int,
    mm: int,
)
    requires
        c.g.valid(),
        delay_laws::wires_from(c.g, v, wires),
        t.fits(c.g),
        0 <= k,
        0 <= r < 2,
        0 <= m < 2,
        0 <= rf < 2,
        0 <= mm < 2,
        0 <= y < wires.len(),
        c.threshold_library(c.g.edges[wires[y] as int].to as int) == 0,
        r == rf && m == mm ==> pe is None,
    ensures
        ({
            let after = c.root_wires(pe, wires, k, r, m, t);
            let w = wires[y] as int;
            let u = c.g.edges[w].to as int;
            let here = r == rf && m == mm;
            &&& after.fits(c.g)
            &&& (here && after.slew[u][rf][mm] == F32(0)) || ((!here || k > y) && after.slew[u][rf][mm]
                == t.slew[u][rf][mm])
            &&& (here && after.delay[w][rf][mm] == F32(0)) || ((!here || k > y) && after.delay[w][rf][mm]
                == t.delay[w][rf][mm])
        }),
    decreases wires.len() - k,
{
    let w = wires[y] as int;
    assert(wires[y] < c.g.edges.len());
    assert(c.g.edge_valid(c.g.edges[w]));
    let u = c.g.edges[w].to as int;
    if k < wires.len() {
        let e = wires[k] as int;
        assert(wires[k] < c.g.edges.len());
        assert(c.g.edge_valid(c.g.edges[e]));
        let load = c.g.edges[e].to as int;
        let next = c.root_wire(pe, e, r, m, t);
        lemma_zero_narrowed();
        assert(t.slew[load].len() == 2 && t.slew[load][0].len() == 2 && t.slew[load][1].len() == 2);
        assert(t.delay[e].len() == 2 && t.delay[e][0].len() == 2 && t.delay[e][1].len() == 2);
        lemma_root_wire_fits(c, pe, e, r, m, t);
        lemma_root_wires(c, v, pe, wires, k + 1, r, m, next, y, rf, mm);
    }
}

proof fn lemma_root_wire_fits(c: CalcView, pe: Option<Reduced>, e: int, r: int, m: int, t: Times)
    requires
        c.g.valid(),
        t.fits(c.g),
        0 <= e < c.g.edges.len(),
        c.g.edges[e].kind is Wire,
        0 <= r < 2,
        0 <= m < 2,
    ensures
        c.root_wire(pe, e, r, m, t).fits(c.g),
{
    assert(c.g.edge_valid(c.g.edges[e]));
    let load = c.g.edges[e].to as int;
    let ll = c.threshold_library(load);
    let wire = match delays::load_elmore(pe, c.g.vertices[load].name) {
        Some(el) => crate::dcalc::port_wire_delay_slew(
            F64(0),
            el,
            delays::input_thresholds(c.header(ll), r),
            c.logs[ll as int].input[r],
        ),
        None => (F64(0), F64(0)),
    };
    let (delay, slew) = c.adjust(0, load, r, wire);
    let first = t.with_slew(load, r, m, slew.narrowed());
    delay_laws::lemma_slew_fits(t, c.g, load, r, m, slew.narrowed());
    assert(first.delay[e].len() == 2);
    delay_laws::lemma_delay_fits(first, c.g, e, r, m, delay.narrowed());
}

proof fn lemma_root_corners(c: CalcView, v: int, wires: Seq<usize>, corner: int, t: Times, y: int, rf: int, mm: int)
    requires
        c.g.valid(),
        delay_laws::wires_from(c.g, v, wires),
        t.fits(c.g),
        0 <= corner,
        0 <= rf < 2,
        0 <= mm < 2,
        0 <= y < wires.len(),
        c.threshold_library(c.g.edges[wires[y] as int].to as int) == 0,
        c.reduce(v, rf, mm) is None,
    ensures
        ({
            let after = c.root_corners(v, wires, corner, t);
            let w = wires[y] as int;
            let u = c.g.edges[w].to as int;
            if corner <= 2 * rf + mm {
                after.slew[u][rf][mm] == F32(0) && after.delay[w][rf][mm] == F32(0)
            } else {
                after.slew[u][rf][mm] == t.slew[u][rf][mm] && after.delay[w][rf][mm] == t.delay[w][rf][mm]
            }
        }),
    decreases 4 - corner,
{
    if corner < 4 {
        let (r, m) = (corner / 2, corner % 2);
        assert(r == rf && m == mm <==> corner == 2 * rf + mm);
        lemma_root_wires(c, v, c.reduce(v, r, m), wires, 0, r, m, t, y, rf, mm);
        let next = c.root_wires(c.reduce(v, r, m), wires, 0, r, m, t);
        lemma_root_corners(c, v, wires, corner + 1, next, y, rf, mm);
    }
}

/// What a driver's visit leaves without a parasitic: at a load whose thresholds are those of the
/// driver, the wire has delay 0 and the load the slew of the driver.
pub proof fn lemma_visit_of_a_lumped_driver(c: CalcView, v: int, run: Run, w: int, rf: int, mm: int)
    requires
        c.g.valid(),
        c.g.libs_valid(),
        0 <= v < c.g.vertices.len(),
        c.g.vertices[v].is_driver,
        run.times.fits(c.g),
        c.visit(v, run) is Ok,
        0 <= rf < 2,
        0 <= mm < 2,
        even_wire(c, v, w),
        lumped(c, v, rf, mm),
    ensures
        ({
            let after = c.visit(v, run)->Ok_0.times;
            &&& after.delay[w][rf][mm] == F32(0)
            &&& after.slew[c.g.edges[w].to as int][rf][mm] == after.slew[v][rf][mm]
        }),
{
    let g = c.g;
    assert(g.edge_valid(g.edges[w]));
    let u = g.edges[w].to as int;
    let after = c.visit(v, run)->Ok_0.times;
    let fanin = delays::propagating(g, g.in_edges[v]);
    let wires = delays::wires_among(g, g.out_edges[v]);
    delay_laws::lemma_lists(g, v);
    delay_laws::lemma_visit_settles(c, v, run);
    let y = merges::lemma_wire_listed(g, v, w);
    if fanin.len() == 0 {
        let zeros = run.times.with_slews(v, delays::zero_pair());
        lemma_root_corners(c, v, wires, 0, zeros, y, rf, mm);
        assert(after.slew[v] == seq![delays::zero_pair(), delays::zero_pair()]);
    } else if !c.drives(fanin, rf) {
        assert(delay_laws::zero_at(g, v, wires, after, rf, mm));
        assert(wires[y] == w);
    } else {
        let n = fanin.len() as int;
        let inited = c.init_wires(wires, 0, run.times);
        let pair = delays::initial_pair();
        let start = inited.with_slews(v, pair);
        delay_laws::lemma_init_wires(c, v, wires, 0, run.times);
        kept::lemma_init_value(c, v, wires, 0, run.times, Place::Slew(u, rf), mm, y);
        kept::lemma_init_value(c, v, wires, 0, run.times, Place::Delay(w, rf), mm, y);
        assert(u != v);
        assert(start.fits(g));
        reveal(level);
        reveal(still);
        reveal(lumped_wire);
        assert(level(g, v, w, rf, mm, start));
        let x = choose|x: int| 0 <= x < n && #[trigger] delays::edge_drives(g, fanin[x] as int, rf);
        lemma_fanin_edges(c, v, wires, fanin, n, run.at(start), y, rf, mm, x);
        let r = c.fanin_edges(v, wires, fanin, n, run.at(start))->Ok_0;
        merges::lemma_fanin_edges_keep(c, v, wires, fanin, n, run.at(start));
        merges::lemma_clear_keeps_driven(c, v, wires, fanin, 0, r.times, Place::Slew(u, rf), mm);
        merges::lemma_clear_keeps_driven(c, v, wires, fanin, 0, r.times, Place::Slew(v, rf), mm);
        merges::lemma_clear_keeps_driven(c, v, wires, fanin, 0, r.times, Place::Delay(w, rf), mm);
    }
}

/// Once delays are calculated, a driver that drives no parasitic is lumped: at a load whose
/// thresholds are those of the driver, the wire has delay 0, and the load, where no other driver is
/// wired to it, the slew of the driver.
pub proof fn lemma_lumped_nets_end_level(c: CalcView, run: Run, w: int, rf: int, mm: int)
    requires
        c.g.valid(),
        c.g.libs_valid(),
        run.times.fits(c.g),
        c.delays(run) is Ok,
        0 <= rf < 2,
        0 <= mm < 2,
        0 <= w < c.g.edges.len(),
        even_wire(c, c.g.edges[w].from as int, w),
        lumped(c, c.g.edges[w].from as int, rf, mm),
    ensures
        ({
            let end = c.delays(run)->Ok_0.times;
            let (v, u) = (c.g.edges[w].from as int, c.g.edges[w].to as int);
            &&& end.delay[w][rf][mm] == F32(0)
            &&& delay_order::lone(c.g, u) ==> end.slew[u][rf][mm] == end.slew[v][rf][mm]
        }),
{
    let g = c.g;
    let (v, u) = (g.edges[w].from as int, g.edges[w].to as int);
    assert(g.edge_valid(g.edges[w]));
    let before = merges::lemma_visited(c, run, v);
    let next = c.visit(v, before)->Ok_0.times;
    let end = c.delays(run)->Ok_0.times;
    lemma_visit_of_a_lumped_driver(c, v, before, w, rf, mm);
    assert(delay_laws::owner(g, w) == v);
    assert(next.delay[w] == end.delay[w]);
    delay_order::lemma_driver_is_lone(g, v);
    assert(delay_order::sets(g, v, v));
    assert(next.slew[v] == end.slew[v]);
    if delay_order::lone(g, u) {
        assert(delay_laws::wired(g, v, u));
        assert(delay_order::sets(g, v, u));
        assert(next.slew[u] == end.slew[u]);
    }
}

/// A net without parasitics has none for a driver on it.
pub proof fn lemma_bare_net_is_lumped(c: CalcView, v: int, rf: int, mm: int)
    requires
        c.g.vertex_net[v] matches Some(n) ==> !c.parasitics.contains_key(c.g.netlist.nets[n as int].name),
    ensures
        lumped(c, v, rf, mm),
{
}

} // verus!
