//! The delay of a gate arc is what its calculation gives from the slews at hand.

use vstd::prelude::*;
use crate::delay_laws;
use crate::delay_order;
use crate::delays;
use crate::delays::{CalcView, Run};
use crate::float32::F32;
use crate::graph::Times;
use crate::merges;

verus! {

/// The delay of arc `k` of edge `e` is what the arc gives from the slews `t`.
pub open spec fn calculated(c: CalcView, v: int, e: int, k: int, mm: int, t: Times, after: Times) -> bool {
    after.delay[e][k][mm] == merges::arc_result(c, v, e, k, mm, t).0.narrowed()
}

/// Every other delay of a gate edge stays.
spec fn others_stay(c: CalcView, e: int, k: int, mm: int, a: Times, b: Times) -> bool {
    forall|f: int, j: int, m: int|
        0 <= f < c.g.edges.len() && c.g.edges[f].kind is Gate && 0 <= j < c.g.arc_set(f).arcs.len() && 0 <= m < 2
            && !(f == e && j == k && m == mm) ==> #[trigger] b.delay[f][j][m] == a.delay[f][j][m]
}

proof fn lemma_gate_arc_delay(c: CalcView, v: int, wires: Seq<usize>, e: int, k: int, mm: int, run: Run)
    requires
        c.g.valid(),
        c.g.libs_valid(),
        0 <= v < c.g.vertices.len(),
        delay_laws::wires_from(c.g, v, wires),
        0 <= e < c.g.edges.len(),
        c.g.edges[e].kind is Gate,
        c.g.edges[e].to == v,
        0 <= k < c.g.arc_set(e).arcs.len(),
        0 <= mm < 2,
        run.times.fits(c.g),
        c.gate_arc(v, wires, e, k, mm, run) is Ok,
    ensures
        ({
            let after = c.gate_arc(v, wires, e, k, mm, run)->Ok_0.times;
            &&& after.fits(c.g)
            &&& calculated(c, v, e, k, mm, run.times, after)
            &&& others_stay(c, e, k, mm, run.times, after)
            &&& delay_laws::differ_at(c.g, v, run.times, after)
        }),
{
    let arc = c.g.arc_set(e).arcs[k];
    let rf = arc.to_rf as int;
    let in_slew = run.times.slew[c.g.edges[e].from as int][arc.from_rf as int][mm];
    let pe = c.arc_parasitic(v, rf, mm);
    c.g.lemma_arc_timed(e, k);
    delay_laws::lemma_gate_arc(c, v, wires, e, k, mm, run);
    let (delay, slew, d) = merges::arc_result(c, v, e, k, mm, run.times);
    let noted = match (d, pe) {
        (Some(s), Some((p, _))) => run.note(
            delays::gate_line(c.g.vertices[v].name, arc, in_slew, p, s, delay, slew),
        ),
        _ => run,
    };
    let first = run.times.merge_slew(v, rf, mm, slew.narrowed());
    delay_laws::lemma_slew_fits(run.times, c.g, v, rf, mm, slew.narrowed());
    assert(first.delay == run.times.delay);
    let t = first.with_delay(e, k, mm, delay.narrowed());
    delay_laws::lemma_delay_fits(first, c.g, e, k, mm, delay.narrowed());
    delay_laws::lemma_arc_wires(c, v, wires, 0, rf, mm, slew, d, pe, noted.at(t));
    let after = c.arc_wires(v, wires, 0, rf, mm, slew, d, pe, noted.at(t)).times;
    assert(after.delay[e] == t.delay[e]);
    assert(run.times.delay[e][k].len() == 2);
    assert forall|f: int, j: int, m: int|
        0 <= f < c.g.edges.len() && c.g.edges[f].kind is Gate && 0 <= j < c.g.arc_set(f).arcs.len() && 0 <= m < 2
            && !(f == e && j == k && m == mm) implies #[trigger] after.delay[f][j][m] == run.times.delay[f][j][m] by {
        assert(after.delay[f] == t.delay[f]);
        assert(run.times.delay[f][j].len() == 2);
    }
}

/// The arcs of an edge from arc `k` of `mm` on: those among them are calculated, other edges stay.
proof fn lemma_edge_arcs_delay(
    c: CalcView,
    v: int,
    wires: Seq<usize>,
    e: int,
    mm: int,
    k: int,
    run: Run,
    f: int,
    j: int,
    n: int,
)
    requires
        c.g.valid(),
        c.g.libs_valid(),
        0 <= v < c.g.vertices.len(),
        delay_laws::wires_from(c.g, v, wires),
        0 <= e < c.g.edges.len(),
        c.g.edges[e].kind is Gate,
        c.g.edges[e].to == v,
        merges::apart(c.g, v, e),
        0 <= k,
        0 <= mm <= 2,
        run.times.fits(c.g),
        c.edge_arcs(v, wires, e, mm, k, run) is Ok,
        0 <= f < c.g.edges.len(),
        c.g.edges[f].kind is Gate,
        0 <= j < c.g.arc_set(f).arcs.len(),
        c.g.arc_set(f).arcs[j].model is Gate,
        0 <= n < 2,
    ensures
        ({
            let after = c.edge_arcs(v, wires, e, mm, k, run)->Ok_0.times;
            &&& after.fits(c.g)
            &&& f == e && (n > mm || n == mm && j >= k) ==> calculated(c, v, e, j, n, run.times, after)
            &&& f != e || n < mm || n == mm && j < k ==> after.delay[f][j][n] == run.times.delay[f][j][n]
        }),
    decreases 2 - mm, c.g.arc_set(e).arcs.len() - k,
{
    let arcs = c.g.arc_set(e).arcs;
    if mm >= 2 {
    } else if k >= arcs.len() {
        lemma_edge_arcs_delay(c, v, wires, e, mm + 1, 0, run, f, j, n);
    } else if !(arcs[k].model is Gate) {
        lemma_edge_arcs_delay(c, v, wires, e, mm, k + 1, run, f, j, n);
    } else {
        let r = c.gate_arc(v, wires, e, k, mm, run)->Ok_0;
        lemma_gate_arc_delay(c, v, wires, e, k, mm, run);
        lemma_edge_arcs_delay(c, v, wires, e, mm, k + 1, r, f, j, n);
        merges::lemma_same_result(c, v, e, j, n, run.times, r.times);
        if !(f == e && j == k && n == mm) {
            assert(r.times.delay[f][j][n] == run.times.delay[f][j][n]);
        }
    }
}

/// The in-edges from the `i`th down: those among them are calculated, others stay.
proof fn lemma_fanin_edges_delay(
    c: CalcView,
    v: int,
    wires: Seq<usize>,
    fanin: Seq<usize>,
    i: int,
    run: Run,
    f: int,
    j: int,
    n: int,
)
    requires
        c.g.valid(),
        c.g.libs_valid(),
        0 <= v < c.g.vertices.len(),
        delay_laws::wires_from(c.g, v, wires),
        delays::all_into(c.g, fanin, v),
        forall|y: int| 0 <= y < fanin.len() ==> merges::apart(c.g, v, #[trigger] fanin[y] as int),
        0 <= i <= fanin.len(),
        run.times.fits(c.g),
        c.fanin_edges(v, wires, fanin, i, run) is Ok,
        0 <= f < c.g.edges.len(),
        merges::apart(c.g, v, f),
        c.g.edges[f].kind is Gate,
        0 <= j < c.g.arc_set(f).arcs.len(),
        c.g.arc_set(f).arcs[j].model is Gate,
        0 <= n < 2,
    ensures
        ({
            let after = c.fanin_edges(v, wires, fanin, i, run)->Ok_0.times;
            &&& after.fits(c.g)
            &&& (exists|x: int| 0 <= x < i && #[trigger] fanin[x] == f) ==> calculated(
                c,
                v,
                f,
                j,
                n,
                run.times,
                after,
            )
            &&& !(exists|x: int| 0 <= x < i && #[trigger] fanin[x] == f) ==> after.delay[f][j][n]
                == run.times.delay[f][j][n]
        }),
    decreases i,
{
    if i > 0 {
        let e = fanin[i - 1] as int;
        assert(fanin[i - 1] < c.g.edges.len() && c.g.edges[e].to == v);
        assert(merges::apart(c.g, v, fanin[i - 1] as int));
        if c.g.edges[e].kind is Wire {
            lemma_fanin_edges_delay(c, v, wires, fanin, i - 1, run, f, j, n);
            assert(e != f);
        } else {
            let r = c.edge_arcs(v, wires, e, 0, 0, run)->Ok_0;
            lemma_edge_arcs_delay(c, v, wires, e, 0, 0, run, f, j, n);
            delay_laws::lemma_edge_arcs(c, v, wires, e, 0, 0, run);
            merges::lemma_same_result(c, v, f, j, n, run.times, r.times);
            lemma_fanin_edges_delay(c, v, wires, fanin, i - 1, r, f, j, n);
            if e == f {
                assert(fanin[i - 1] == f);
            }
        }
    }
}

proof fn lemma_clear_stays(
    c: CalcView,
    v: int,
    wires: Seq<usize>,
    fanin: Seq<usize>,
    corner: int,
    t: Times,
    f: int,
)
    requires
        c.g.valid(),
        0 <= v < c.g.vertices.len(),
        delay_laws::wires_from(c.g, v, wires),
        delay_laws::spans(t, c.g),
        0 <= f < c.g.edges.len(),
        c.g.edges[f].kind is Gate,
    ensures
        c.clear_undriven(v, wires, fanin, corner, t).delay[f] == t.delay[f],
    decreases 4 - corner,
{
    if 0 <= corner < 4 {
        let (rf, mm) = (corner / 2, corner % 2);
        let first = t.with_slew(v, rf, mm, F32(0));
        let next = if c.drives(fanin, rf) {
            t
        } else {
            delay_laws::lemma_clear_wires(c, v, wires, 0, rf, mm, first);
            c.clear_wires(wires, 0, rf, mm, first)
        };
        assert(next.delay[f] == t.delay[f]);
        lemma_clear_stays(c, v, wires, fanin, corner + 1, next, f);
    }
}

/// Once delays are calculated, the delay of each gate arc into a driver is what the arc gives from
/// the slew at hand of the pin it comes from, of the transition and the min/max it comes with.
pub proof fn lemma_gate_delays_read_the_final_slews(c: CalcView, run: Run, e: int, k: int, mm: int)
    requires
        c.g.valid(),
        c.g.libs_valid(),
        run.times.fits(c.g),
        c.delays(run) is Ok,
        c.g.propagates(e),
        c.g.edges[e].kind is Gate,
        c.g.vertices[c.g.edges[e].to as int].is_driver,
        0 <= k < c.g.arc_set(e).arcs.len(),
        c.g.arc_set(e).arcs[k].model is Gate,
        0 <= mm < 2,
    ensures
        ({
            let end = c.delays(run)->Ok_0.times;
            let arc = c.g.arc_set(e).arcs[k];
            let in_slew = end.slew[c.g.edges[e].from as int][arc.from_rf as int][mm];
            c.gate_times(c.g.edges[e].to as int, arc.model->Gate_0, in_slew, arc.to_rf as int, mm) matches Some(r)
                && end.delay[e][k][mm] == r.0.narrowed()
        }),
{
    let g = c.g;
    let v = g.edges[e].to as int;
    assert(g.edge_valid(g.edges[e]));
    let before = merges::lemma_visited(c, run, v);
    let end = c.delays(run)->Ok_0.times;
    lemma_visit_calculates(c, v, before, e, k, mm);
    assert(delay_laws::owner(g, e) == v);
    assert(c.visit(v, before)->Ok_0.times.delay[e] == end.delay[e]);
    let from = g.edges[e].from as int;
    assert(delay_order::feeds(g, from, v));
    assert(before.times.slew[from] == end.slew[from]);
}

/// What a driver's visit leaves of the delay of an arc into it.
proof fn lemma_visit_calculates(c: CalcView, v: int, before: Run, e: int, k: int, mm: int)
    requires
        c.g.valid(),
        c.g.libs_valid(),
        0 <= v < c.g.vertices.len(),
        c.g.vertices[v].is_driver,
        before.times.fits(c.g),
        c.visit(v, before) is Ok,
        c.g.propagates(e),
        c.g.edges[e].kind is Gate,
        c.g.edges[e].to == v,
        0 <= k < c.g.arc_set(e).arcs.len(),
        c.g.arc_set(e).arcs[k].model is Gate,
        0 <= mm < 2,
        ({
            let fanin = delays::propagating(c.g, c.g.in_edges[v]);
            forall|j: int| 0 <= j < fanin.len() ==> merges::apart(c.g, v, #[trigger] fanin[j] as int)
        }),
    ensures
        calculated(c, v, e, k, mm, before.times, c.visit(v, before)->Ok_0.times),
        known(c, v, e, k, mm, before.times),
{
    let g = c.g;
    assert(g.edge_valid(g.edges[e]));
    let x = merges::lemma_edge_listed(g, v, e);
    delay_laws::lemma_lists(g, v);
    let fanin = delays::propagating(g, g.in_edges[v]);
    let wires = delays::wires_among(g, g.out_edges[v]);
    let inited = c.init_wires(wires, 0, before.times);
    delay_laws::lemma_init_wires(c, v, wires, 0, before.times);
    let start = inited.with_slews(v, delays::initial_pair());
    assert(start.fits(g)) by {
        assert(inited.fits(g));
    }
    let n = fanin.len() as int;
    assert(merges::apart(g, v, fanin[x] as int));
    let begun = before.at(start);
    let r = c.fanin_edges(v, wires, fanin, n, begun)->Ok_0;
    lemma_fanin_edges_delay(c, v, wires, fanin, n, begun, e, k, mm);
    lemma_gate_times_known(c, v, wires, fanin, n, begun, e, k, mm);
    lemma_clear_stays(c, v, wires, fanin, 0, r.times, e);
    let from = g.edges[e].from as int;
    assert(inited.slew[from] == before.times.slew[from]);
    assert(start.slew[from] == before.times.slew[from]);
}

/// Where the in-edges of a driver go on, each of their arcs has a delay and a slew.
proof fn lemma_gate_times_known(
    c: CalcView,
    v: int,
    wires: Seq<usize>,
    fanin: Seq<usize>,
    i: int,
    run: Run,
    f: int,
    j: int,
    n: int,
)
    requires
        c.g.valid(),
        c.g.libs_valid(),
        0 <= v < c.g.vertices.len(),
        delay_laws::wires_from(c.g, v, wires),
        delays::all_into(c.g, fanin, v),
        forall|y: int| 0 <= y < fanin.len() ==> merges::apart(c.g, v, #[trigger] fanin[y] as int),
        0 <= i <= fanin.len(),
        run.times.fits(c.g),
        c.fanin_edges(v, wires, fanin, i, run) is Ok,
        0 <= f < c.g.edges.len(),
        merges::apart(c.g, v, f),
        c.g.edges[f].kind is Gate,
        0 <= j < c.g.arc_set(f).arcs.len(),
        c.g.arc_set(f).arcs[j].model is Gate,
        0 <= n < 2,
        exists|x: int| 0 <= x < i && #[trigger] fanin[x] == f,
    ensures
        known(c, v, f, j, n, run.times),
    decreases i,
{
    let e = fanin[i - 1] as int;
    assert(fanin[i - 1] < c.g.edges.len() && c.g.edges[e].to == v);
    assert(merges::apart(c.g, v, fanin[i - 1] as int));
    if c.g.edges[e].kind is Wire {
        lemma_gate_times_known(c, v, wires, fanin, i - 1, run, f, j, n);
    } else if e == f {
        lemma_arc_known(c, v, wires, e, 0, 0, run, j, n);
    } else {
        let r = c.edge_arcs(v, wires, e, 0, 0, run)->Ok_0;
        delay_laws::lemma_edge_arcs(c, v, wires, e, 0, 0, run);
        assert(c.g.edge_valid(c.g.edges[f]));
        assert(r.times.slew[c.g.edges[f].from as int] == run.times.slew[c.g.edges[f].from as int]);
        lemma_gate_times_known(c, v, wires, fanin, i - 1, r, f, j, n);
    }
}

/// An arc has a delay and a slew.
spec fn known(c: CalcView, v: int, e: int, k: int, mm: int, t: Times) -> bool {
    let arc = c.g.arc_set(e).arcs[k];
    c.gate_times(
        v,
        arc.model->Gate_0,
        t.slew[c.g.edges[e].from as int][arc.from_rf as int][mm],
        arc.to_rf as int,
        mm,
    ) is Some
}

proof fn lemma_arc_known(c: CalcView, v: int, wires: Seq<usize>, e: int, mm: int, k: int, run: Run, j: int, n: int)
    requires
        c.g.valid(),
        c.g.libs_valid(),
        0 <= v < c.g.vertices.len(),
        delay_laws::wires_from(c.g, v, wires),
        0 <= e < c.g.edges.len(),
        c.g.edges[e].kind is Gate,
        c.g.edges[e].to == v,
        merges::apart(c.g, v, e),
        0 <= k,
        0 <= mm <= n < 2,
        n > mm || j >= k,
        0 <= j < c.g.arc_set(e).arcs.len(),
        c.g.arc_set(e).arcs[j].model is Gate,
        run.times.fits(c.g),
        c.edge_arcs(v, wires, e, mm, k, run) is Ok,
    ensures
        known(c, v, e, j, n, run.times),
    decreases 2 - mm, c.g.arc_set(e).arcs.len() - k,
{
    let arcs = c.g.arc_set(e).arcs;
    if k >= arcs.len() {
        lemma_arc_known(c, v, wires, e, mm + 1, 0, run, j, n);
    } else if !(arcs[k].model is Gate) {
        lemma_arc_known(c, v, wires, e, mm, k + 1, run, j, n);
    } else if !(j == k && n == mm) {
        let r = c.gate_arc(v, wires, e, k, mm, run)->Ok_0;
        lemma_gate_arc_delay(c, v, wires, e, k, mm, run);
        assert(c.g.edge_valid(c.g.edges[e]));
        assert(r.times.slew[c.g.edges[e].from as int] == run.times.slew[c.g.edges[e].from as int]);
        lemma_arc_known(c, v, wires, e, mm, k + 1, r, j, n);
    }
}

} // verus!
