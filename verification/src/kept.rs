//! Where the merged values of a driver come from: each is what some arc into the driver gives, or
//! the initial value that none beats.

use vstd::prelude::*;
use crate::dcalc::DmpView;
use crate::delay_laws;
use crate::delay_order;
use crate::delays;
use crate::delays::{CalcView, Reduced, Run};
use crate::float32::F32;
use crate::float64::F64;
use crate::graph::{GraphView, Times};
use crate::merges;
use crate::merges::Place;

verus! {

/// A wire from a driver.
pub open spec fn wire_of(g: GraphView, v: int, w: int) -> bool {
    0 <= w < g.edges.len() && g.edges[w].kind is Wire && g.edges[w].from == v
}

/// A place that a driver's visit merges: its own slew, the delay of a wire from it, or the slew of a
/// load.
pub open spec fn merged_at(g: GraphView, v: int, at: Place) -> bool {
    &&& at.valid(g)
    &&& match at {
        Place::Slew(u, _) => u == v || delay_laws::wired(g, v, u),
        Place::Delay(w, _) => wire_of(g, v, w),
    }
}

/// What the wires of a driver give at a place, for one arc: the delay of the wire, or the slew of the
/// load at its end.
pub open spec fn wires_give(
    c: CalcView,
    v: int,
    rf: int,
    slew: F64,
    d: Option<DmpView>,
    pe: Option<Reduced>,
    at: Place,
    x: F32,
) -> bool {
    match at {
        Place::Slew(u, _) => exists|w: int|
            #[trigger] wire_of(c.g, v, w) && c.g.edges[w].to == u && x == merges::wire_result(
                c,
                v,
                w,
                rf,
                slew,
                d,
                pe,
            ).1.narrowed(),
        Place::Delay(w, _) => wire_of(c.g, v, w) && x == merges::wire_result(
            c,
            v,
            w,
            rf,
            slew,
            d,
            pe,
        ).0.narrowed(),
    }
}

/// What arc `k` of edge `e` gives at a place, from the slews of `t`.
pub open spec fn gives(c: CalcView, v: int, e: int, k: int, mm: int, t: Times, at: Place, x: F32) -> bool {
    let arc = c.g.arc_set(e).arcs[k];
    let (_, slew, d) = merges::arc_result(c, v, e, k, mm, t);
    &&& 0 <= k < c.g.arc_set(e).arcs.len()
    &&& arc.model is Gate
    &&& arc.to_rf == at.rf()
    &&& {
        ||| at == Place::Slew(v, at.rf()) && x == slew.narrowed()
        ||| wires_give(c, v, at.rf(), slew, d, c.arc_parasitic(v, at.rf(), mm), at, x)
    }
}

/// Some arc of an edge into the driver gives a value at a place.
pub open spec fn given(c: CalcView, v: int, mm: int, t: Times, at: Place, x: F32) -> bool {
    exists|e: int, k: int|
        c.g.propagates(e) && c.g.edges[e].kind is Gate && c.g.edges[e].to == v && #[trigger] gives(
            c,
            v,
            e,
            k,
            mm,
            t,
            at,
            x,
        )
}

/// The sources of the edges into a driver are neither the driver nor its loads.
pub open spec fn sources_apart(g: GraphView, v: int) -> bool {
    forall|e: int| #[trigger] g.propagates(e) && g.edges[e].to == v ==> merges::apart(g, v, e)
}

pub(crate) proof fn lemma_arc_wires_give(
    c: CalcView,
    v: int,
    wires: Seq<usize>,
    k: int,
    rf: int,
    mm: int,
    slew: F64,
    d: Option<DmpView>,
    pe: Option<Reduced>,
    run: Run,
    own: Option<DmpView>,
    at: Place,
    m: int,
)
    requires
        c.g.valid(),
        delay_laws::wires_from(c.g, v, wires),
        0 <= k,
        0 <= rf < 2,
        0 <= mm < 2,
        0 <= m < 2,
        run.times.fits(c.g),
        at.valid(c.g),
        merges::same_loads(own, d),
    ensures
        ({
            let x = at.value(c.arc_wires(v, wires, k, rf, mm, slew, d, pe, run).times, m);
            ||| x == at.value(run.times, m)
            ||| m == mm && at.rf() == rf && wires_give(c, v, rf, slew, own, pe, at, x)
        }),
    decreases wires.len() - k,
{
    if k < wires.len() {
        let w = wires[k] as int;
        assert(wires[k] < c.g.edges.len());
        assert(c.g.edge_valid(c.g.edges[w]));
        assert(wire_of(c.g, v, w));
        let load = c.g.edges[w].to as int;
        let name = c.g.vertices[load].name;
        let elmore = delays::load_elmore(pe, name);
        let wire = match (d, elmore) {
            (Some(s), Some(el)) => s.load_result(el.widened()),
            (Some(_), None) => (F64(0), slew),
            (None, _) => (F64(0), slew.narrowed().widened()),
        };
        let next = match (d, elmore) {
            (Some(s), Some(el)) => Some(s.at_load(el.widened())),
            _ => d,
        };
        let noted = if d is Some {
            run.note(delays::load_line(c.g.vertices[v].name, name, wire.0, wire.1))
        } else {
            run
        };
        let (delay, load_slew) = c.adjust(c.g.vertices[v].lib->0, load, rf, wire);
        let t = noted.times;
        let first = t.merge_slew(load, rf, mm, load_slew.narrowed());
        let merged = first.merge_delay(w, rf, mm, delay.narrowed());
        merges::lemma_merge_slew(t, c.g, load, rf, mm, load_slew.narrowed(), at, m, F32(0));
        merges::lemma_merge_delay(first, c.g, w, rf, mm, delay.narrowed(), at, m, F32(0));
        assert(merges::same_loads(own, next)) by {
            if let (Some(o), Some(s), Some(el)) = (own, d, elmore) {
                assert forall|x: F64| #[trigger] o.load_result(x) == s.at_load(el.widened()).load_result(x) by {
                    merges::lemma_loads_are_independent(s, el.widened(), x);
                }
            }
        }
        assert(merges::wire_result(c, v, w, rf, slew, own, pe) == (delay, load_slew));
        assert(t.slew[load].len() == 2 && t.slew[load][rf].len() == 2);
        assert(first.delay[w].len() == 2 && first.delay[w][rf].len() == 2);
        assert(at.value(merged, m) == at.value(t, m) || m == mm && at.rf() == rf && wires_give(
            c,
            v,
            rf,
            slew,
            own,
            pe,
            at,
            at.value(merged, m),
        ));
        lemma_arc_wires_give(c, v, wires, k + 1, rf, mm, slew, next, pe, noted.at(merged), own, at, m);
    }
}

proof fn lemma_gate_arc_gives(
    c: CalcView,
    v: int,
    wires: Seq<usize>,
    e: int,
    k: int,
    mm: int,
    run: Run,
    at: Place,
    m: int,
)
    requires
        c.g.valid(),
        c.g.libs_valid(),
        0 <= v < c.g.vertices.len(),
        delay_laws::wires_from(c.g, v, wires),
        0 <= e < c.g.edges.len(),
        c.g.edges[e].kind is Gate,
        0 <= k < c.g.arc_set(e).arcs.len(),
        c.g.arc_set(e).arcs[k].model is Gate,
        0 <= mm < 2,
        0 <= m < 2,
        run.times.fits(c.g),
        at.valid(c.g),
        c.gate_arc(v, wires, e, k, mm, run) is Ok,
    ensures
        ({
            let x = at.value(c.gate_arc(v, wires, e, k, mm, run)->Ok_0.times, m);
            ||| x == at.value(run.times, m)
            ||| gives(c, v, e, k, m, run.times, at, x)
        }),
{
    let arc = c.g.arc_set(e).arcs[k];
    let rf = arc.to_rf as int;
    let in_slew = run.times.slew[c.g.edges[e].from as int][arc.from_rf as int][mm];
    let pe = c.arc_parasitic(v, rf, mm);
    c.g.lemma_arc_timed(e, k);
    let (delay, slew, d) = merges::arc_result(c, v, e, k, mm, run.times);
    let noted = match (d, pe) {
        (Some(s), Some((p, _))) => run.note(
            delays::gate_line(c.g.vertices[v].name, arc, in_slew, p, s, delay, slew),
        ),
        _ => run,
    };
    let x = slew.narrowed();
    let first = run.times.merge_slew(v, rf, mm, x);
    merges::lemma_merge_slew(run.times, c.g, v, rf, mm, x, at, m, F32(0));
    let t = first.with_delay(e, k, mm, delay.narrowed());
    delay_laws::lemma_delay_fits(first, c.g, e, k, mm, delay.narrowed());
    assert(run.times.slew[v].len() == 2 && run.times.slew[v][rf].len() == 2);
    let start = noted.at(t);
    assert(at.value(t, m) == at.value(run.times, m) || gives(c, v, e, k, m, run.times, at, at.value(t, m)));
    lemma_arc_wires_give(c, v, wires, 0, rf, mm, slew, d, pe, start, d, at, m);
}

proof fn lemma_edge_arcs_give(
    c: CalcView,
    v: int,
    wires: Seq<usize>,
    e: int,
    mm: int,
    k: int,
    run: Run,
    at: Place,
    m: int,
)
    requires
        c.g.valid(),
        c.g.libs_valid(),
        0 <= v < c.g.vertices.len(),
        c.g.vertices[v].is_driver,
        delay_laws::wires_from(c.g, v, wires),
        0 <= e < c.g.edges.len(),
        c.g.edges[e].kind is Gate,
        c.g.edges[e].to == v,
        merges::apart(c.g, v, e),
        0 <= k,
        0 <= mm <= 2,
        0 <= m < 2,
        run.times.fits(c.g),
        at.valid(c.g),
        c.edge_arcs(v, wires, e, mm, k, run) is Ok,
    ensures
        ({
            let x = at.value(c.edge_arcs(v, wires, e, mm, k, run)->Ok_0.times, m);
            ||| x == at.value(run.times, m)
            ||| exists|j: int| #[trigger] gives(c, v, e, j, m, run.times, at, x)
        }),
    decreases 2 - mm, c.g.arc_set(e).arcs.len() - k,
{
    let arcs = c.g.arc_set(e).arcs;
    if mm >= 2 {
    } else if k >= arcs.len() {
        lemma_edge_arcs_give(c, v, wires, e, mm + 1, 0, run, at, m);
    } else if !(arcs[k].model is Gate) {
        lemma_edge_arcs_give(c, v, wires, e, mm, k + 1, run, at, m);
    } else {
        let r = c.gate_arc(v, wires, e, k, mm, run)->Ok_0;
        lemma_gate_arc_gives(c, v, wires, e, k, mm, run, at, m);
        delay_laws::lemma_gate_arc(c, v, wires, e, k, mm, run);
        lemma_edge_arcs_give(c, v, wires, e, mm, k + 1, r, at, m);
        let x = at.value(c.edge_arcs(v, wires, e, mm, k, run)->Ok_0.times, m);
        if exists|j: int| #[trigger] gives(c, v, e, j, m, r.times, at, x) {
            let j = choose|j: int| #[trigger] gives(c, v, e, j, m, r.times, at, x);
            merges::lemma_same_result(c, v, e, j, m, run.times, r.times);
            assert(gives(c, v, e, j, m, run.times, at, x));
        }
    }
}

proof fn lemma_fanin_edges_give(
    c: CalcView,
    v: int,
    wires: Seq<usize>,
    fanin: Seq<usize>,
    i: int,
    run: Run,
    at: Place,
    m: int,
)
    requires
        c.g.valid(),
        c.g.libs_valid(),
        0 <= v < c.g.vertices.len(),
        c.g.vertices[v].is_driver,
        delay_laws::wires_from(c.g, v, wires),
        delays::all_into(c.g, fanin, v),
        sources_apart(c.g, v),
        forall|y: int| 0 <= y < fanin.len() ==> !c.g.checks(#[trigger] fanin[y] as int),
        0 <= i <= fanin.len(),
        0 <= m < 2,
        run.times.fits(c.g),
        at.valid(c.g),
        c.fanin_edges(v, wires, fanin, i, run) is Ok,
    ensures
        ({
            let x = at.value(c.fanin_edges(v, wires, fanin, i, run)->Ok_0.times, m);
            ||| x == at.value(run.times, m)
            ||| given(c, v, m, run.times, at, x)
        }),
    decreases i,
{
    if i > 0 {
        let e = fanin[i - 1] as int;
        assert(fanin[i - 1] < c.g.edges.len() && c.g.edges[e].to == v);
        assert(!c.g.checks(fanin[i - 1] as int));
        assert(c.g.propagates(e));
        if c.g.edges[e].kind is Wire {
            lemma_fanin_edges_give(c, v, wires, fanin, i - 1, run, at, m);
        } else {
            let r = c.edge_arcs(v, wires, e, 0, 0, run)->Ok_0;
            lemma_edge_arcs_give(c, v, wires, e, 0, 0, run, at, m);
            merges::lemma_edge_arcs_keep(c, v, wires, e, 0, 0, run);
            delay_laws::lemma_edge_arcs(c, v, wires, e, 0, 0, run);
            lemma_fanin_edges_give(c, v, wires, fanin, i - 1, r, at, m);
            assert(c.g.propagates(e));
            let x = at.value(c.fanin_edges(v, wires, fanin, i, run)->Ok_0.times, m);
            if given(c, v, m, r.times, at, x) {
                let (f, k) = choose|f: int, k: int|
                    c.g.propagates(f) && c.g.edges[f].kind is Gate && c.g.edges[f].to == v && #[trigger] gives(
                        c,
                        v,
                        f,
                        k,
                        m,
                        r.times,
                        at,
                        x,
                    );
                merges::lemma_same_result(c, v, f, k, m, run.times, r.times);
                assert(gives(c, v, f, k, m, run.times, at, x));
            }
        }
    }
}

/// What the wires start from: a place of a wire from the `k`th on is at the initial value, one that
/// was at it stays so.
pub(crate) proof fn lemma_init_value(c: CalcView, v: int, wires: Seq<usize>, k: int, t: Times, at: Place, m: int, y: int)
    requires
        c.g.valid(),
        delay_laws::wires_from(c.g, v, wires),
        t.fits(c.g),
        0 <= k,
        0 <= m < 2,
        at.valid(c.g),
        0 <= y < wires.len(),
        match at {
            Place::Slew(u, _) => c.g.edges[wires[y] as int].to == u,
            Place::Delay(w, _) => wires[y] == w,
        },
        y < k ==> at.value(t, m) == delays::initial_pair()[m],
    ensures
        at.value(c.init_wires(wires, k, t), m) == delays::initial_pair()[m],
    decreases wires.len() - k,
{
    if k < wires.len() {
        let e = wires[k] as int;
        assert(wires[k] < c.g.edges.len());
        assert(c.g.edge_valid(c.g.edges[e]));
        let pair = delays::initial_pair();
        let next = t.with_slews(c.g.edges[e].to as int, pair).with_delays(e, pair);
        delay_laws::lemma_pair_fits(t, c.g, e, pair);
        lemma_init_value(c, v, wires, k + 1, next, at, m, y);
    }
}

/// What a driver's visit leaves at a place that it merges, in a transition that some arc drives, is
/// what one of the arcs into it gives from the slews before the visit, or the initial value.
pub proof fn lemma_kept_is_given(c: CalcView, v: int, run: Run, at: Place, mm: int)
    requires
        c.g.valid(),
        c.g.libs_valid(),
        0 <= v < c.g.vertices.len(),
        c.g.vertices[v].is_driver,
        sources_apart(c.g, v),
        run.times.fits(c.g),
        c.visit(v, run) is Ok,
        merged_at(c.g, v, at),
        0 <= mm < 2,
        c.drives(delays::propagating(c.g, c.g.in_edges[v]), at.rf()),
    ensures
        ({
            let x = at.value(c.visit(v, run)->Ok_0.times, mm);
            ||| x == delays::initial_pair()[mm]
            ||| given(c, v, mm, run.times, at, x)
        }),
{
    let g = c.g;
    delay_laws::lemma_lists(g, v);
    let fanin = delays::propagating(g, g.in_edges[v]);
    let wires = delays::wires_among(g, g.out_edges[v]);
    let n = fanin.len() as int;
    let inited = c.init_wires(wires, 0, run.times);
    let pair = delays::initial_pair();
    let start = inited.with_slews(v, pair);
    delay_laws::lemma_init_wires(c, v, wires, 0, run.times);
    assert(start.fits(g)) by {
        assert(inited.fits(g));
    }
    assert(at.value(start, mm) == pair[mm]) by {
        match at {
            Place::Slew(u, _) => {
                if u != v {
                    let w = choose|w: int|
                        0 <= w < g.edges.len() && (#[trigger] g.edges[w]).kind is Wire && g.edges[w].from == v
                            && g.edges[w].to == u;
                    let y = merges::lemma_wire_listed(g, v, w);
                    lemma_init_value(c, v, wires, 0, run.times, at, mm, y);
                }
            },
            Place::Delay(w, _) => {
                let y = merges::lemma_wire_listed(g, v, w);
                lemma_init_value(c, v, wires, 0, run.times, at, mm, y);
            },
        }
    }
    delay_order::lemma_propagating_edges(g, g.in_edges[v]);
    let r = c.fanin_edges(v, wires, fanin, n, run.at(start))->Ok_0;
    lemma_fanin_edges_give(c, v, wires, fanin, n, run.at(start), at, mm);
    merges::lemma_fanin_edges_keep(c, v, wires, fanin, n, run.at(start));
    merges::lemma_clear_keeps_driven(c, v, wires, fanin, 0, r.times, at, mm);
    let x = at.value(r.times, mm);
    if given(c, v, mm, start, at, x) {
        let (f, k) = choose|f: int, k: int|
            g.propagates(f) && g.edges[f].kind is Gate && g.edges[f].to == v && #[trigger] gives(
                c,
                v,
                f,
                k,
                mm,
                start,
                at,
                x,
            );
        let from = g.edges[f].from as int;
        assert(g.edge_valid(g.edges[f]));
        assert(merges::apart(g, v, f));
        assert(run.times.slew[from] == inited.slew[from]);
        assert(merges::arc_result(c, v, f, k, mm, run.times) == merges::arc_result(c, v, f, k, mm, start));
        assert(gives(c, v, f, k, mm, run.times, at, x));
    }
}

/// Once delays are calculated, every driver's slew, its wires' delays and the slews of its loads that
/// no other driver is wired to, in a transition that some arc drives, are each what one of the arcs
/// into the driver gives from the slews at hand, or the initial value.
pub proof fn lemma_delays_keep_what_is_given(c: CalcView, run: Run, v: int, at: Place, mm: int)
    requires
        c.g.valid(),
        c.g.libs_valid(),
        run.times.fits(c.g),
        c.delays(run) is Ok,
        0 <= v < c.g.vertices.len(),
        c.g.vertices[v].is_driver,
        merged_at(c.g, v, at),
        at matches Place::Slew(u, _) ==> delay_order::lone(c.g, u),
        0 <= mm < 2,
        c.drives(delays::propagating(c.g, c.g.in_edges[v]), at.rf()),
    ensures
        ({
            let end = c.delays(run)->Ok_0.times;
            let x = at.value(end, mm);
            ||| x == delays::initial_pair()[mm]
            ||| given(c, v, mm, end, at, x)
        }),
{
    let g = c.g;
    let before = merges::lemma_visited(c, run, v);
    let next = c.visit(v, before)->Ok_0.times;
    let end = c.delays(run)->Ok_0.times;
    assert(sources_apart(g, v)) by {
        assert forall|e: int| #[trigger] g.propagates(e) && g.edges[e].to == v implies merges::apart(g, v, e) by {
            let j = merges::lemma_edge_listed(g, v, e);
            assert(merges::apart(g, v, delays::propagating(g, g.in_edges[v])[j] as int));
        }
    }
    lemma_kept_is_given(c, v, before, at, mm);
    assert(at.value(next, mm) == at.value(end, mm)) by {
        match at {
            Place::Slew(u, _) => {
                assert(delay_order::sets(g, v, u));
                assert(next.slew[u] == end.slew[u]);
            },
            Place::Delay(w, _) => {
                assert(delay_laws::owner(g, w) == v);
                assert(!g.checks(w));
                assert(next.delay[w] == end.delay[w]);
            },
        }
    }
    let x = at.value(end, mm);
    if given(c, v, mm, before.times, at, x) {
        let (f, k) = choose|f: int, k: int|
            g.propagates(f) && g.edges[f].kind is Gate && g.edges[f].to == v && #[trigger] gives(
                c,
                v,
                f,
                k,
                mm,
                before.times,
                at,
                x,
            );
        let from = g.edges[f].from as int;
        assert(g.edge_valid(g.edges[f]));
        assert(delay_order::feeds(g, from, v));
        assert(before.times.slew[from] == end.slew[from]);
        assert(merges::arc_result(c, v, f, k, mm, before.times) == merges::arc_result(c, v, f, k, mm, end));
        assert(gives(c, v, f, k, mm, end, at, x));
    }
}

} // verus!
