//! What the merges of a driver keep: over every arc of every in-edge, the fuzzily worst slew of the
//! driver, slew of each load and delay of each wire.

use vstd::prelude::*;
use crate::dcalc::DmpView;
use crate::delay_laws;
use crate::delay_order;
use crate::delays;
use crate::delays::{CalcView, Reduced, Run};
use crate::float32::F32;
use crate::float64::F64;
use crate::fuzzy;
use crate::graph;
use crate::graph::{GraphView, Times};
use crate::liberty::MAX;
use crate::topology;

verus! {

/// Where a merged value is kept: a vertex's slew or a wire's delay, of a transition.
pub ghost enum Place {
    Slew(int, int),
    Delay(int, int),
}

impl Place {
    pub open spec fn rf(self) -> int {
        match self {
            Place::Slew(_, rf) => rf,
            Place::Delay(_, rf) => rf,
        }
    }

    /// The place is in the graph.
    pub open spec fn valid(self, g: GraphView) -> bool {
        match self {
            Place::Slew(u, rf) => 0 <= u < g.vertices.len() && 0 <= rf < 2,
            Place::Delay(w, rf) => 0 <= w < g.edges.len() && g.edges[w].kind is Wire && 0 <= rf < 2,
        }
    }

    pub open spec fn value(self, t: Times, mm: int) -> F32 {
        match self {
            Place::Slew(u, rf) => t.slew[u][rf][mm],
            Place::Delay(w, rf) => t.delay[w][rf][mm],
        }
    }
}

/// What is kept at a place is not beaten by `x`.
pub open spec fn holds(t: Times, at: Place, mm: int, x: F32) -> bool {
    !delays::worse(mm, x, at.value(t, mm))
}

proof fn lemma_worse(mm: int, earlier: F32, x: F32, kept: F32)
    requires
        !delays::worse(mm, earlier, kept),
        delays::worse(mm, x, kept),
    ensures
        !delays::worse(mm, earlier, x),
{
    if delays::worse(mm, earlier, x) {
        if mm == MAX {
            fuzzy::lemma_greater_is_transitive(earlier, x, kept);
        } else {
            fuzzy::lemma_less_is_transitive(earlier, x, kept);
        }
    }
}

/// A merged slew keeps what no value merged so far is fuzzily worse than, here and elsewhere.
pub proof fn lemma_merge_slew(
    t: Times,
    g: GraphView,
    u: int,
    rf: int,
    mm: int,
    x: F32,
    at: Place,
    m: int,
    earlier: F32,
)
    requires
        t.fits(g),
        0 <= u < g.vertices.len(),
        0 <= rf < 2,
        0 <= mm < 2,
        0 <= m < 2,
        at.valid(g),
    ensures
        t.merge_slew(u, rf, mm, x).fits(g),
        holds(t.merge_slew(u, rf, mm, x), Place::Slew(u, rf), mm, x),
        holds(t, at, m, earlier) ==> holds(t.merge_slew(u, rf, mm, x), at, m, earlier),
{
    reveal(F32::is_lt);
    delay_laws::lemma_slew_fits(t, g, u, rf, mm, x);
    assert(t.slew[u].len() == 2 && t.slew[u][0].len() == 2 && t.slew[u][1].len() == 2);
    let kept = t.slew[u][rf][mm];
    if delays::worse(mm, x, kept) && holds(t, at, m, earlier) && at == Place::Slew(u, rf) && m == mm {
        lemma_worse(mm, earlier, x, kept);
    }
}

/// A merged wire delay keeps what no value merged so far is fuzzily worse than, here and elsewhere.
pub proof fn lemma_merge_delay(
    t: Times,
    g: GraphView,
    w: int,
    rf: int,
    mm: int,
    x: F32,
    at: Place,
    m: int,
    earlier: F32,
)
    requires
        t.fits(g),
        0 <= w < g.edges.len(),
        g.edges[w].kind is Wire,
        0 <= rf < 2,
        0 <= mm < 2,
        0 <= m < 2,
        at.valid(g),
    ensures
        t.merge_delay(w, rf, mm, x).fits(g),
        holds(t.merge_delay(w, rf, mm, x), Place::Delay(w, rf), mm, x),
        holds(t, at, m, earlier) ==> holds(t.merge_delay(w, rf, mm, x), at, m, earlier),
{
    reveal(F32::is_lt);
    assert(t.delay[w].len() == 2);
    delay_laws::lemma_delay_fits(t, g, w, rf, mm, x);
    assert(t.delay[w][rf].len() == 2);
    let kept = t.delay[w][rf][mm];
    if delays::worse(mm, x, kept) && holds(t, at, m, earlier) && at == Place::Delay(w, rf) && m == mm {
        lemma_worse(mm, earlier, x, kept);
    }
}

/// What a driver's arc gives: its delay and slew, and the state its loads are read from.
pub open spec fn arc_result(c: CalcView, v: int, e: int, k: int, mm: int, t: Times) -> (F64, F64, Option<DmpView>) {
    let arc = c.g.arc_set(e).arcs[k];
    let in_slew = t.slew[c.g.edges[e].from as int][arc.from_rf as int][mm];
    c.gate_times(v, arc.model->Gate_0, in_slew, arc.to_rf as int, mm)->0
}

/// The delay of wire `w` and the slew of its load, for one arc.
pub open spec fn wire_result(
    c: CalcView,
    v: int,
    w: int,
    rf: int,
    slew: F64,
    d: Option<DmpView>,
    pe: Option<Reduced>,
) -> (F64, F64) {
    let load = c.g.edges[w].to as int;
    let wire = match (d, delays::load_elmore(pe, c.g.vertices[load].name)) {
        (Some(s), Some(el)) => s.load_result(el.widened()),
        (Some(_), None) => (F64(0), slew),
        (None, _) => (F64(0), slew.narrowed().widened()),
    };
    c.adjust(c.g.vertices[v].lib->0, load, rf, wire)
}

/// A state that gives the same at every load.
pub(crate) open spec fn same_loads(a: Option<DmpView>, b: Option<DmpView>) -> bool {
    match (a, b) {
        (Some(x), Some(y)) => forall|el: F64| #[trigger] x.load_result(el) == y.load_result(el),
        (None, None) => true,
        _ => false,
    }
}

/// What is read at one load does not depend on the loads read before.
pub proof fn lemma_loads_are_independent(d: DmpView, first: F64, el: F64)
    ensures
        d.at_load(first).load_result(el) == d.load_result(el),
{
    assert(d.at_load(first).at_load(el) == d.at_load(el) || d.load_is_simple(el));
}

proof fn lemma_arc_wires_merge(
    c: CalcView,
    v: int,
    wires: Seq<usize>,
    k: int,
    rf: int,
    mm: int,
    slew: F64,
    d: Option<DmpView>,
    pe: Option<Reduced>,
    run: Run,
    own: Option<DmpView>,
    at: Place,
    m: int,
    earlier: F32,
)
    requires
        c.g.valid(),
        delay_laws::wires_from(c.g, v, wires),
        0 <= k,
        0 <= rf < 2,
        0 <= mm < 2,
        0 <= m < 2,
        run.times.fits(c.g),
        at.valid(c.g),
        same_loads(own, d),
    ensures
        ({
            let after = c.arc_wires(v, wires, k, rf, mm, slew, d, pe, run).times;
            &&& after.fits(c.g)
            &&& holds(run.times, at, m, earlier) ==> holds(after, at, m, earlier)
            &&& forall|y: int|
                k <= y < wires.len() ==> {
                    let w = (#[trigger] wires[y]) as int;
                    let r = wire_result(c, v, w, rf, slew, own, pe);
                    &&& holds(after, Place::Delay(w, rf), mm, r.0.narrowed())
                    &&& holds(after, Place::Slew(c.g.edges[w].to as int, rf), mm, r.1.narrowed())
                }
        }),
    decreases wires.len() - k,
{
    if k < wires.len() {
        let w = wires[k] as int;
        assert(wires[k] < c.g.edges.len());
        assert(c.g.edge_valid(c.g.edges[w]));
        let load = c.g.edges[w].to as int;
        let name = c.g.vertices[load].name;
        let elmore = delays::load_elmore(pe, name);
        let wire = match (d, elmore) {
            (Some(s), Some(el)) => s.load_result(el.widened()),
            (Some(_), None) => (F64(0), slew),
            (None, _) => (F64(0), slew.narrowed().widened()),
        };
        let next = match (d, elmore) {
            (Some(s), Some(el)) => Some(s.at_load(el.widened())),
            _ => d,
        };
        let noted = if d is Some {
            run.note(delays::load_line(c.g.vertices[v].name, name, wire.0, wire.1))
        } else {
            run
        };
        let (delay, load_slew) = c.adjust(c.g.vertices[v].lib->0, load, rf, wire);
        let t = noted.times;
        let first = t.merge_slew(load, rf, mm, load_slew.narrowed());
        let merged = first.merge_delay(w, rf, mm, delay.narrowed());
        let (slews, lags) = (Place::Slew(load, rf), Place::Delay(w, rf));
        lemma_merge_slew(t, c.g, load, rf, mm, load_slew.narrowed(), at, m, earlier);
        lemma_merge_delay(first, c.g, w, rf, mm, delay.narrowed(), at, m, earlier);
        lemma_merge_delay(first, c.g, w, rf, mm, delay.narrowed(), slews, mm, load_slew.narrowed());
        assert(same_loads(own, next)) by {
            if let (Some(o), Some(s), Some(el)) = (own, d, elmore) {
                assert forall|x: F64| #[trigger] o.load_result(x) == s.at_load(el.widened()).load_result(x) by {
                    lemma_loads_are_independent(s, el.widened(), x);
                }
            }
        }
        assert(wire_result(c, v, w, rf, slew, own, pe) == (delay, load_slew));
        let rest = noted.at(merged);
        assert(c.arc_wires(v, wires, k, rf, mm, slew, d, pe, run) == c.arc_wires(
            v,
            wires,
            k + 1,
            rf,
            mm,
            slew,
            next,
            pe,
            rest,
        ));
        lemma_arc_wires_merge(c, v, wires, k + 1, rf, mm, slew, next, pe, rest, own, at, m, earlier);
        lemma_arc_wires_merge(c, v, wires, k + 1, rf, mm, slew, next, pe, rest, own, lags, mm, delay.narrowed());
        lemma_arc_wires_merge(c, v, wires, k + 1, rf, mm, slew, next, pe, rest, own, slews, mm, load_slew.narrowed());
    }
}

/// Nothing that was not beaten is beaten later.
pub(crate) open spec fn keeps_all(g: GraphView, a: Times, b: Times) -> bool {
    forall|at: Place, m: int, x: F32|
        at.valid(g) && 0 <= m < 2 && holds(a, at, m, x) ==> #[trigger] holds(b, at, m, x)
}

/// A driver's slew, its wires' delays and its loads' slews are not beaten by what arc `k` of edge `e`
/// gives from the times `t`.
pub open spec fn arc_met(
    c: CalcView,
    v: int,
    wires: Seq<usize>,
    e: int,
    k: int,
    mm: int,
    t: Times,
    after: Times,
) -> bool {
    let rf = c.g.arc_set(e).arcs[k].to_rf as int;
    let (_, slew, d) = arc_result(c, v, e, k, mm, t);
    let pe = c.arc_parasitic(v, rf, mm);
    &&& holds(after, Place::Slew(v, rf), mm, slew.narrowed())
    &&& forall|y: int|
        0 <= y < wires.len() ==> {
            let w = (#[trigger] wires[y]) as int;
            let r = wire_result(c, v, w, rf, slew, d, pe);
            &&& holds(after, Place::Delay(w, rf), mm, r.0.narrowed())
            &&& holds(after, Place::Slew(c.g.edges[w].to as int, rf), mm, r.1.narrowed())
        }
}

proof fn lemma_gate_arc(c: CalcView, v: int, wires: Seq<usize>, e: int, k: int, mm: int, run: Run)
    requires
        c.g.valid(),
        c.g.libs_valid(),
        0 <= v < c.g.vertices.len(),
        delay_laws::wires_from(c.g, v, wires),
        0 <= e < c.g.edges.len(),
        c.g.edges[e].kind is Gate,
        0 <= k < c.g.arc_set(e).arcs.len(),
        0 <= mm < 2,
        run.times.fits(c.g),
        c.gate_arc(v, wires, e, k, mm, run) is Ok,
    ensures
        ({
            let after = c.gate_arc(v, wires, e, k, mm, run)->Ok_0.times;
            &&& after.fits(c.g)
            &&& keeps_all(c.g, run.times, after)
            &&& arc_met(c, v, wires, e, k, mm, run.times, after)
        }),
{
    let arc = c.g.arc_set(e).arcs[k];
    let rf = arc.to_rf as int;
    let in_slew = run.times.slew[c.g.edges[e].from as int][arc.from_rf as int][mm];
    let pe = c.arc_parasitic(v, rf, mm);
    c.g.lemma_arc_timed(e, k);
    let (delay, slew, d) = arc_result(c, v, e, k, mm, run.times);
    let noted = match (d, pe) {
        (Some(s), Some((p, _))) => run.note(
            delays::gate_line(c.g.vertices[v].name, arc, in_slew, p, s, delay, slew),
        ),
        _ => run,
    };
    let own = Place::Slew(v, rf);
    let x = slew.narrowed();
    let first = run.times.merge_slew(v, rf, mm, x);
    lemma_merge_slew(run.times, c.g, v, rf, mm, x, own, mm, x);
    let t = first.with_delay(e, k, mm, delay.narrowed());
    delay_laws::lemma_delay_fits(first, c.g, e, k, mm, delay.narrowed());
    let start = noted.at(t);
    let after = c.arc_wires(v, wires, 0, rf, mm, slew, d, pe, start).times;
    lemma_arc_wires_merge(c, v, wires, 0, rf, mm, slew, d, pe, start, d, own, mm, x);
    assert forall|at: Place, m: int, y: F32|
        at.valid(c.g) && 0 <= m < 2 && holds(run.times, at, m, y) implies #[trigger] holds(after, at, m, y) by {
        lemma_merge_slew(run.times, c.g, v, rf, mm, x, at, m, y);
        assert(holds(t, at, m, y));
        lemma_arc_wires_merge(c, v, wires, 0, rf, mm, slew, d, pe, start, d, at, m, y);
    }
}

/// The in-pin of edge `e` is neither the driver `v` nor one of its loads.
pub open spec fn apart(g: GraphView, v: int, e: int) -> bool {
    g.edges[e].from != v && !delay_laws::wired(g, v, g.edges[e].from as int)
}

proof fn lemma_met_later(
    c: CalcView,
    v: int,
    wires: Seq<usize>,
    e: int,
    k: int,
    mm: int,
    t: Times,
    a: Times,
    b: Times,
)
    requires
        c.g.valid(),
        c.g.libs_valid(),
        0 <= v < c.g.vertices.len(),
        delay_laws::wires_from(c.g, v, wires),
        0 <= e < c.g.edges.len(),
        c.g.edges[e].kind is Gate,
        0 <= k < c.g.arc_set(e).arcs.len(),
        0 <= mm < 2,
        keeps_all(c.g, a, b),
        arc_met(c, v, wires, e, k, mm, t, a),
    ensures
        arc_met(c, v, wires, e, k, mm, t, b),
{
    c.g.lemma_arc_timed(e, k);
    let rf = c.g.arc_set(e).arcs[k].to_rf as int;
    let (_, slew, d) = arc_result(c, v, e, k, mm, t);
    let pe = c.arc_parasitic(v, rf, mm);
    assert(Place::Slew(v, rf).valid(c.g));
    assert forall|y: int| 0 <= y < wires.len() implies {
        let w = (#[trigger] wires[y]) as int;
        let r = wire_result(c, v, w, rf, slew, d, pe);
        &&& holds(b, Place::Delay(w, rf), mm, r.0.narrowed())
        &&& holds(b, Place::Slew(c.g.edges[w].to as int, rf), mm, r.1.narrowed())
    } by {
        let w = wires[y] as int;
        assert(c.g.edge_valid(c.g.edges[w]));
        assert(Place::Delay(w, rf).valid(c.g) && Place::Slew(c.g.edges[w].to as int, rf).valid(c.g));
    }
}

pub(crate) proof fn lemma_edge_arcs_keep(c: CalcView, v: int, wires: Seq<usize>, e: int, mm: int, k: int, run: Run)
    requires
        c.g.valid(),
        c.g.libs_valid(),
        0 <= v < c.g.vertices.len(),
        delay_laws::wires_from(c.g, v, wires),
        0 <= e < c.g.edges.len(),
        c.g.edges[e].kind is Gate,
        0 <= k,
        0 <= mm <= 2,
        run.times.fits(c.g),
        c.edge_arcs(v, wires, e, mm, k, run) is Ok,
    ensures
        c.edge_arcs(v, wires, e, mm, k, run)->Ok_0.times.fits(c.g),
        keeps_all(c.g, run.times, c.edge_arcs(v, wires, e, mm, k, run)->Ok_0.times),
    decreases 2 - mm, c.g.arc_set(e).arcs.len() - k,
{
    let arcs = c.g.arc_set(e).arcs;
    if mm >= 2 {
    } else if k >= arcs.len() {
        lemma_edge_arcs_keep(c, v, wires, e, mm + 1, 0, run);
    } else if !(arcs[k].model is Gate) {
        lemma_edge_arcs_keep(c, v, wires, e, mm, k + 1, run);
    } else {
        lemma_gate_arc(c, v, wires, e, k, mm, run);
        lemma_edge_arcs_keep(c, v, wires, e, mm, k + 1, c.gate_arc(v, wires, e, k, mm, run)->Ok_0);
    }
}

/// From a source apart, an arc gives the same before and after a visit's step.
pub(crate) proof fn lemma_same_result(c: CalcView, v: int, e: int, k: int, mm: int, a: Times, b: Times)
    requires
        c.g.valid(),
        a.fits(c.g),
        0 <= e < c.g.edges.len(),
        apart(c.g, v, e),
        delay_laws::differ_at(c.g, v, a, b),
    ensures
        arc_result(c, v, e, k, mm, a) == arc_result(c, v, e, k, mm, b),
{
    assert(c.g.edge_valid(c.g.edges[e]));
    assert(a.slew[c.g.edges[e].from as int] == b.slew[c.g.edges[e].from as int]);
}

proof fn lemma_edge_arcs_merge(
    c: CalcView,
    v: int,
    wires: Seq<usize>,
    e: int,
    mm: int,
    k: int,
    run: Run,
    n: int,
    j: int,
)
    requires
        c.g.valid(),
        c.g.libs_valid(),
        c.g.vertices[v].is_driver,
        0 <= v < c.g.vertices.len(),
        delay_laws::wires_from(c.g, v, wires),
        0 <= e < c.g.edges.len(),
        c.g.edges[e].kind is Gate,
        c.g.edges[e].to == v,
        apart(c.g, v, e),
        0 <= k,
        0 <= mm <= n < 2,
        n > mm || j >= k,
        0 <= j < c.g.arc_set(e).arcs.len(),
        c.g.arc_set(e).arcs[j].model is Gate,
        run.times.fits(c.g),
        c.edge_arcs(v, wires, e, mm, k, run) is Ok,
    ensures
        arc_met(c, v, wires, e, j, n, run.times, c.edge_arcs(v, wires, e, mm, k, run)->Ok_0.times),
    decreases 2 - mm, c.g.arc_set(e).arcs.len() - k,
{
    let arcs = c.g.arc_set(e).arcs;
    if k >= arcs.len() {
        lemma_edge_arcs_merge(c, v, wires, e, mm + 1, 0, run, n, j);
    } else if !(arcs[k].model is Gate) {
        lemma_edge_arcs_merge(c, v, wires, e, mm, k + 1, run, n, j);
    } else {
        let r = c.gate_arc(v, wires, e, k, mm, run)->Ok_0;
        lemma_gate_arc(c, v, wires, e, k, mm, run);
        if n == mm && j == k {
            lemma_edge_arcs_keep(c, v, wires, e, mm, k + 1, r);
            let after = c.edge_arcs(v, wires, e, mm, k + 1, r)->Ok_0.times;
            lemma_met_later(c, v, wires, e, k, mm, run.times, r.times, after);
        } else {
            delay_laws::lemma_gate_arc(c, v, wires, e, k, mm, run);
            lemma_same_result(c, v, e, j, n, run.times, r.times);
            lemma_edge_arcs_merge(c, v, wires, e, mm, k + 1, r, n, j);
        }
    }
}

pub(crate) proof fn lemma_fanin_edges_keep(c: CalcView, v: int, wires: Seq<usize>, fanin: Seq<usize>, i: int, run: Run)
    requires
        c.g.valid(),
        c.g.libs_valid(),
        0 <= v < c.g.vertices.len(),
        delay_laws::wires_from(c.g, v, wires),
        delays::all_into(c.g, fanin, v),
        0 <= i <= fanin.len(),
        run.times.fits(c.g),
        c.fanin_edges(v, wires, fanin, i, run) is Ok,
    ensures
        c.fanin_edges(v, wires, fanin, i, run)->Ok_0.times.fits(c.g),
        keeps_all(c.g, run.times, c.fanin_edges(v, wires, fanin, i, run)->Ok_0.times),
    decreases i,
{
    if i > 0 {
        let e = fanin[i - 1] as int;
        assert(fanin[i - 1] < c.g.edges.len() && c.g.edges[e].to == v);
        if c.g.edges[e].kind is Wire {
            lemma_fanin_edges_keep(c, v, wires, fanin, i - 1, run);
        } else {
            lemma_edge_arcs_keep(c, v, wires, e, 0, 0, run);
            lemma_fanin_edges_keep(c, v, wires, fanin, i - 1, c.edge_arcs(v, wires, e, 0, 0, run)->Ok_0);
        }
    }
}

proof fn lemma_fanin_edges_merge(
    c: CalcView,
    v: int,
    wires: Seq<usize>,
    fanin: Seq<usize>,
    i: int,
    run: Run,
    x: int,
    n: int,
    j: int,
)
    requires
        c.g.valid(),
        c.g.libs_valid(),
        c.g.vertices[v].is_driver,
        0 <= v < c.g.vertices.len(),
        delay_laws::wires_from(c.g, v, wires),
        delays::all_into(c.g, fanin, v),
        forall|y: int| 0 <= y < fanin.len() ==> apart(c.g, v, #[trigger] fanin[y] as int),
        0 <= x < i <= fanin.len(),
        c.g.edges[fanin[x] as int].kind is Gate,
        0 <= j < c.g.arc_set(fanin[x] as int).arcs.len(),
        c.g.arc_set(fanin[x] as int).arcs[j].model is Gate,
        0 <= n < 2,
        run.times.fits(c.g),
        c.fanin_edges(v, wires, fanin, i, run) is Ok,
    ensures
        arc_met(
            c,
            v,
            wires,
            fanin[x] as int,
            j,
            n,
            run.times,
            c.fanin_edges(v, wires, fanin, i, run)->Ok_0.times,
        ),
    decreases i,
{
    let e = fanin[i - 1] as int;
    assert(fanin[i - 1] < c.g.edges.len() && c.g.edges[e].to == v);
    assert(apart(c.g, v, fanin[i - 1] as int));
    if c.g.edges[e].kind is Wire {
        lemma_fanin_edges_merge(c, v, wires, fanin, i - 1, run, x, n, j);
    } else {
        let r = c.edge_arcs(v, wires, e, 0, 0, run)->Ok_0;
        let f = fanin[x] as int;
        assert(fanin[x] < c.g.edges.len());
        assert(apart(c.g, v, fanin[x] as int));
        lemma_edge_arcs_keep(c, v, wires, e, 0, 0, run);
        if x == i - 1 {
            lemma_edge_arcs_merge(c, v, wires, e, 0, 0, run, n, j);
            lemma_fanin_edges_keep(c, v, wires, fanin, i - 1, r);
            let after = c.fanin_edges(v, wires, fanin, i - 1, r)->Ok_0.times;
            lemma_met_later(c, v, wires, e, j, n, run.times, r.times, after);
        } else {
            delay_laws::lemma_edge_arcs(c, v, wires, e, 0, 0, run);
            lemma_same_result(c, v, f, j, n, run.times, r.times);
            lemma_fanin_edges_merge(c, v, wires, fanin, i - 1, r, x, n, j);
        }
    }
}

/// Clearing leaves a transition that some arc drives.
pub(crate) proof fn lemma_clear_keeps_driven(
    c: CalcView,
    v: int,
    wires: Seq<usize>,
    fanin: Seq<usize>,
    corner: int,
    t: Times,
    at: Place,
    m: int,
)
    requires
        c.g.valid(),
        0 <= v < c.g.vertices.len(),
        delay_laws::wires_from(c.g, v, wires),
        0 <= corner <= 4,
        0 <= m < 2,
        at.valid(c.g),
        t.fits(c.g),
        c.drives(fanin, at.rf()),
    ensures
        at.value(c.clear_undriven(v, wires, fanin, corner, t), m) == at.value(t, m),
    decreases 4 - corner,
{
    if corner < 4 {
        let (r, n) = (corner / 2, corner % 2);
        if c.drives(fanin, r) {
            lemma_clear_keeps_driven(c, v, wires, fanin, corner + 1, t, at, m);
        } else {
            let first = t.with_slew(v, r, n, F32(0));
            delay_laws::lemma_slew_fits(t, c.g, v, r, n, F32(0));
            delay_laws::lemma_clear_wires_zeroes(c, v, wires, 0, r, n, first);
            let next = c.clear_wires(wires, 0, r, n, first);
            assert(t.slew[v].len() == 2 && t.slew[v][0].len() == 2 && t.slew[v][1].len() == 2);
            assert(at.value(first, m) == at.value(t, m));
            assert(at.value(next, m) == at.value(first, m)) by {
                match at {
                    Place::Slew(u, rf) => {
                        assert(next.slew[u][rf][m] == first.slew[u][rf][m]);
                    },
                    Place::Delay(w, rf) => {
                        assert(next.delay[w][rf][m] == first.delay[w][rf][m]);
                    },
                }
            }
            lemma_clear_keeps_driven(c, v, wires, fanin, corner + 1, next, at, m);
        }
    }
}

/// A driver takes, over every arc of every in-edge, a slew that none of theirs is fuzzily worse
/// than; its wires' delays and its loads' slews are kept in the same way.
pub proof fn lemma_worst_of_every_arc(c: CalcView, v: int, run: Run, i: int, k: int, mm: int)
    requires
        c.g.valid(),
        c.g.libs_valid(),
        0 <= v < c.g.vertices.len(),
        c.g.vertices[v].is_driver,
        run.times.fits(c.g),
        c.visit(v, run) is Ok,
        ({
            let fanin = delays::propagating(c.g, c.g.in_edges[v]);
            &&& 0 <= i < fanin.len()
            &&& forall|j: int| 0 <= j < fanin.len() ==> apart(c.g, v, #[trigger] fanin[j] as int)
            &&& c.g.edges[fanin[i] as int].kind is Gate
            &&& 0 <= k < c.g.arc_set(fanin[i] as int).arcs.len()
            &&& c.g.arc_set(fanin[i] as int).arcs[k].model is Gate
        }),
        0 <= mm < 2,
    ensures
        ({
            let e = delays::propagating(c.g, c.g.in_edges[v])[i] as int;
            let wires = delays::wires_among(c.g, c.g.out_edges[v]);
            arc_met(c, v, wires, e, k, mm, run.times, c.visit(v, run)->Ok_0.times)
        }),
{
    delay_laws::lemma_lists(c.g, v);
    let fanin = delays::propagating(c.g, c.g.in_edges[v]);
    let wires = delays::wires_among(c.g, c.g.out_edges[v]);
    let n = fanin.len() as int;
    let e = fanin[i] as int;
    assert(fanin[i] < c.g.edges.len());
    assert(apart(c.g, v, fanin[i] as int));
    assert(c.g.edge_valid(c.g.edges[e]));
    let inited = c.init_wires(wires, 0, run.times);
    let start = inited.with_slews(v, delays::initial_pair());
    delay_laws::lemma_init_wires(c, v, wires, 0, run.times);
    let from = c.g.edges[e].from as int;
    assert(run.times.slew[from] == inited.slew[from]);
    let r = c.fanin_edges(v, wires, fanin, n, run.at(start))->Ok_0;
    let rf = c.g.arc_set(e).arcs[k].to_rf as int;
    c.g.lemma_arc_timed(e, k);
    lemma_fanin_edges_keep(c, v, wires, fanin, n, run.at(start));
    lemma_fanin_edges_merge(c, v, wires, fanin, n, run.at(start), i, mm, k);
    assert(arc_result(c, v, e, k, mm, run.times) == arc_result(c, v, e, k, mm, start));
    assert(delays::edge_drives(c.g, fanin[i] as int, rf)) by {
        assert(c.g.arc_set(e).arcs[k].model is Gate);
    }
    let after = c.clear_undriven(v, wires, fanin, 0, r.times);
    lemma_clear_keeps_driven(c, v, wires, fanin, 0, r.times, Place::Slew(v, rf), mm);
    assert forall|y: int| 0 <= y < wires.len() implies {
        let w = (#[trigger] wires[y]) as int;
        &&& Place::Delay(w, rf).value(after, mm) == Place::Delay(w, rf).value(r.times, mm)
        &&& Place::Slew(c.g.edges[w].to as int, rf).value(after, mm) == Place::Slew(
            c.g.edges[w].to as int,
            rf,
        ).value(r.times, mm)
    } by {
        let w = wires[y] as int;
        assert(c.g.edge_valid(c.g.edges[w]));
        lemma_clear_keeps_driven(c, v, wires, fanin, 0, r.times, Place::Delay(w, rf), mm);
        lemma_clear_keeps_driven(c, v, wires, fanin, 0, r.times, Place::Slew(c.g.edges[w].to as int, rf), mm);
    }
}

proof fn lemma_among_propagating(g: GraphView, edges: Seq<usize>, i: int) -> (j: int)
    requires
        0 <= i < edges.len(),
        !g.checks(edges[i] as int),
    ensures
        0 <= j < delays::propagating(g, edges).len(),
        delays::propagating(g, edges)[j] == edges[i],
    decreases edges.len(),
{
    let less = edges.drop_last();
    if i < less.len() {
        assert(less[i] == edges[i]);
        lemma_among_propagating(g, less, i)
    } else {
        delays::propagating(g, less).len() as int
    }
}

/// The place of an edge into a vertex among those that propagate.
pub(crate) proof fn lemma_edge_listed(g: GraphView, v: int, e: int) -> (j: int)
    requires
        g.valid(),
        0 <= v < g.vertices.len(),
        g.propagates(e),
        g.edges[e].to == v,
    ensures
        0 <= j < delays::propagating(g, g.in_edges[v]).len(),
        delays::propagating(g, g.in_edges[v])[j] == e,
{
    let ins = g.in_edges[v];
    graph::lemma_edges_at(g.edges, v, true);
    assert(g.edge_valid(g.edges[e]));
    assert(ins.contains(e as usize));
    lemma_among_propagating(g, ins, ins.index_of(e as usize))
}

/// The place of a wire among those from its driver.
pub(crate) proof fn lemma_wire_listed(g: GraphView, v: int, w: int) -> (j: int)
    requires
        g.valid(),
        0 <= v < g.vertices.len(),
        0 <= w < g.edges.len(),
        g.edges[w].kind is Wire,
        g.edges[w].from == v,
    ensures
        0 <= j < delays::wires_among(g, g.out_edges[v]).len(),
        delays::wires_among(g, g.out_edges[v])[j] == w,
{
    let outs = g.out_edges[v];
    graph::lemma_edges_at(g.edges, v, false);
    assert(g.edge_valid(g.edges[w]));
    assert(outs.contains(w as usize));
    lemma_among_wires(g, outs, outs.index_of(w as usize))
}

/// The sources of a vertex's propagating edges are apart from it and its loads.
proof fn lemma_sources_apart(g: GraphView, order: Seq<usize>, i: int, e: int)
    requires
        g.valid(),
        topology::topological(g, order),
        0 <= i < order.len(),
        g.propagates(e),
        g.edges[e].to == order[i],
    ensures
        apart(g, order[i] as int, e),
{
    let v = order[i] as int;
    let u = g.edges[e].from as int;
    let j = delay_order::lemma_before(g, order, e, i);
    if delay_laws::wired(g, v, u) {
        let f = choose|f: int|
            0 <= f < g.edges.len() && (#[trigger] g.edges[f]).kind is Wire && g.edges[f].from == v && g.edges[f].to == u;
        assert(g.propagates(f));
        let k = delay_order::lemma_before(g, order, f, j);
        assert(order[k] == order[i]);
    }
    if u == v {
        assert(order[j] == order[i]);
    }
}

proof fn lemma_times_fit(c: CalcView, order: Seq<usize>, i: int, run: Run)
    requires
        delay_order::goes_on(c, order, run),
        run.times.fits(c.g),
        0 <= i <= order.len(),
    ensures
        delay_order::after(c, order, i, run).times.fits(c.g),
    decreases i,
{
    if i > 0 {
        lemma_times_fit(c, order, i - 1, run);
        delay_order::lemma_after(c, order, 0, run);
        let v = order[i - 1] as int;
        assert(order[i - 1] < c.g.vertices.len());
        delay_laws::lemma_visit_is_local(c, v, delay_order::after(c, order, i - 1, run));
        assert(c.visit(order[i - 1] as int, delay_order::after(c, order, i - 1, run)) is Ok);
    }
}

/// The visit of a vertex in a calculation: what its gate edges read is as it is at the end, what it
/// leaves stays to the end, but for the slew of a load that is wired to another driver too.
pub(crate) proof fn lemma_visited(c: CalcView, run: Run, v: int) -> (before: Run)
    requires
        c.g.valid(),
        c.g.libs_valid(),
        run.times.fits(c.g),
        c.delays(run) is Ok,
        0 <= v < c.g.vertices.len(),
    ensures
        before.times.fits(c.g),
        c.visit(v, before) is Ok,
        ({
            let next = c.visit(v, before)->Ok_0.times;
            let end = c.delays(run)->Ok_0.times;
            let fanin = delays::propagating(c.g, c.g.in_edges[v]);
            &&& forall|u: int|
                0 <= u < c.g.vertices.len() && delay_order::feeds(c.g, u, v) ==> #[trigger] before.times.slew[u]
                    == end.slew[u]
            &&& forall|u: int|
                0 <= u < c.g.vertices.len() && delay_order::sets(c.g, v, u) && delay_order::lone(c.g, u)
                    ==> #[trigger] next.slew[u] == end.slew[u]
            &&& forall|e: int|
                0 <= e < c.g.edges.len() && delay_laws::owner(c.g, e) == v && !c.g.checks(e)
                    ==> #[trigger] next.delay[e] == end.delay[e]
            &&& forall|j: int| 0 <= j < fanin.len() ==> apart(c.g, v, #[trigger] fanin[j] as int)
        }),
{
    let g = c.g;
    let order = topology::order_of(g)->0;
    topology::lemma_order_is_topological(g);
    let n = order.len() as int;
    let i = delay_order::lemma_place(g, order, v);
    delay_order::lemma_after(c, order, 0, run);
    lemma_times_fit(c, order, i, run);
    delay_order::lemma_sources_settled(c, order, i, run);
    delay_order::lemma_spans(c, order, n, run);
    delay_order::lemma_spans(c, order, i + 1, run);
    let before = delay_order::after(c, order, i, run);
    let next = delay_order::after(c, order, i + 1, run).times;
    let mid = delay_order::after(c, order, n, run);
    assert(c.visit(order[i] as int, before) is Ok);
    assert(next == (c.visit(v, before)->Ok_0).times);
    delay_laws::lemma_checks_are_local(c, 0, mid);
    let end = c.delays(run)->Ok_0.times;
    assert(end.slew == mid.times.slew);
    assert forall|u: int| 0 <= u < g.vertices.len() && delay_order::feeds(g, u, v) implies #[trigger] before.times.slew[u]
        == end.slew[u] by {
        assert(before.times.slew[u] == mid.times.slew[u]);
    }
    assert forall|u: int|
        0 <= u < g.vertices.len() && delay_order::sets(g, v, u) && delay_order::lone(g, u) implies #[trigger] next.slew[u]
        == end.slew[u] by {
        delay_order::lemma_slew_at_end(c, order, i, run, u);
    }
    assert forall|e: int|
        0 <= e < g.edges.len() && delay_laws::owner(g, e) == v && !g.checks(e) implies #[trigger] next.delay[e]
        == end.delay[e] by {
        delay_order::lemma_delay_at_end(c, order, i, run, e);
        assert(end.delay[e] == mid.times.delay[e]);
    }
    let ins = g.in_edges[v];
    delay_laws::lemma_lists(g, v);
    delay_order::lemma_propagating_edges(g, ins);
    let fanin = delays::propagating(g, ins);
    assert forall|j: int| 0 <= j < fanin.len() implies apart(g, v, #[trigger] fanin[j] as int) by {
        assert(fanin[j] < g.edges.len() && g.edges[fanin[j] as int].to == v);
        lemma_sources_apart(g, order, i, fanin[j] as int);
    }
    before
}

/// Once delays are calculated, every driver's slew, its wires' delays and the slews of its loads that
/// no other driver is wired to are such that no arc of an edge into the driver, taken from the slews
/// at hand, gives a fuzzily worse one.
pub proof fn lemma_delays_keep_the_worst(c: CalcView, run: Run, e: int, k: int, mm: int)
    requires
        c.g.valid(),
        c.g.libs_valid(),
        run.times.fits(c.g),
        c.delays(run) is Ok,
        c.g.propagates(e),
        c.g.edges[e].kind is Gate,
        c.g.vertices[c.g.edges[e].to as int].is_driver,
        0 <= k < c.g.arc_set(e).arcs.len(),
        c.g.arc_set(e).arcs[k].model is Gate,
        0 <= mm < 2,
    ensures
        ({
            let v = c.g.edges[e].to as int;
            let wires = delays::wires_among(c.g, c.g.out_edges[v]);
            let rf = c.g.arc_set(e).arcs[k].to_rf as int;
            let end = c.delays(run)->Ok_0.times;
            let (_, slew, d) = arc_result(c, v, e, k, mm, end);
            let pe = c.arc_parasitic(v, rf, mm);
            &&& holds(end, Place::Slew(v, rf), mm, slew.narrowed())
            &&& forall|y: int|
                0 <= y < wires.len() ==> {
                    let w = (#[trigger] wires[y]) as int;
                    let u = c.g.edges[w].to as int;
                    let r = wire_result(c, v, w, rf, slew, d, pe);
                    &&& holds(end, Place::Delay(w, rf), mm, r.0.narrowed())
                    &&& delay_order::lone(c.g, u) ==> holds(end, Place::Slew(u, rf), mm, r.1.narrowed())
                }
        }),
{
    let g = c.g;
    let v = g.edges[e].to as int;
    assert(g.edge_valid(g.edges[e]));
    let before = lemma_visited(c, run, v);
    let next = c.visit(v, before)->Ok_0.times;
    let end = c.delays(run)->Ok_0.times;
    let x = lemma_edge_listed(g, v, e);
    delay_laws::lemma_lists(g, v);
    lemma_worst_of_every_arc(c, v, before, x, k, mm);
    let from = g.edges[e].from as int;
    assert(delay_order::feeds(g, from, v));
    assert(before.times.slew[from] == end.slew[from]);
    assert(arc_result(c, v, e, k, mm, before.times) == arc_result(c, v, e, k, mm, end));
    let wires = delays::wires_among(g, g.out_edges[v]);
    assert(delay_order::sets(g, v, v));
    delay_order::lemma_driver_is_lone(g, v);
    assert(next.slew[v] == end.slew[v]);
    assert forall|y: int| 0 <= y < wires.len() implies {
        let w = (#[trigger] wires[y]) as int;
        let u = g.edges[w].to as int;
        &&& end.delay[w] == next.delay[w]
        &&& delay_order::lone(g, u) ==> end.slew[u] == next.slew[u]
    } by {
        let w = wires[y] as int;
        assert(wires[y] < g.edges.len());
        assert(g.edge_valid(g.edges[w]));
        assert(delay_laws::owner(g, w) == v);
        assert(next.delay[w] == end.delay[w]);
        let u = g.edges[w].to as int;
        assert(delay_laws::wired(g, v, u));
        assert(delay_order::sets(g, v, u));
        if delay_order::lone(g, u) {
            assert(next.slew[u] == end.slew[u]);
        }
    }
}

/// Once delays are calculated, a transition that no arc drives has slew 0 at the driver's loads too,
/// those that no other driver is wired to.
pub proof fn lemma_undriven_loads_end_at_zero(c: CalcView, run: Run, w: int, rf: int, mm: int)
    requires
        c.g.valid(),
        c.g.libs_valid(),
        run.times.fits(c.g),
        c.delays(run) is Ok,
        0 <= w < c.g.edges.len(),
        c.g.edges[w].kind is Wire,
        delay_order::lone(c.g, c.g.edges[w].to as int),
        0 <= rf < 2,
        0 <= mm < 2,
        ({
            let fanin = delays::propagating(c.g, c.g.in_edges[c.g.edges[w].from as int]);
            fanin.len() > 0 && !c.drives(fanin, rf)
        }),
    ensures
        c.delays(run)->Ok_0.times.slew[c.g.edges[w].to as int][rf][mm] == F32(0),
{
    let g = c.g;
    let v = g.edges[w].from as int;
    let u = g.edges[w].to as int;
    assert(g.edge_valid(g.edges[w]));
    let before = lemma_visited(c, run, v);
    let next = c.visit(v, before)->Ok_0.times;
    let end = c.delays(run)->Ok_0.times;
    assert(delay_laws::wired(g, v, u));
    assert(delay_order::sets(g, v, u));
    assert(next.slew[u] == end.slew[u]);
    delay_laws::lemma_visit_settles(c, v, before);
    let wires = delays::wires_among(g, g.out_edges[v]);
    assert(delay_laws::zero_at(g, v, wires, next, rf, mm));
    let y = lemma_wire_listed(g, v, w);
    assert(wires[y] == w);
}

proof fn lemma_among_wires(g: GraphView, edges: Seq<usize>, i: int) -> (j: int)
    requires
        0 <= i < edges.len(),
        g.edges[edges[i] as int].kind is Wire,
    ensures
        0 <= j < delays::wires_among(g, edges).len(),
        delays::wires_among(g, edges)[j] == edges[i],
    decreases edges.len(),
{
    let less = edges.drop_last();
    if i < less.len() {
        assert(less[i] == edges[i]);
        lemma_among_wires(g, less, i)
    } else {
        delays::wires_among(g, less).len() as int
    }
}

} // verus!
