//! The wires of a port that nothing in the netlist drives: the delay of each is that of its load's
//! Elmore delay.

use vstd::prelude::*;
use crate::calc_laws;
use crate::dcalc::{LibThresholds, Thresholds};
use crate::delay_laws;
use crate::delays;
use crate::delays::{CalcView, Reduced};
use crate::float32::F32;
use crate::float64::F64;
use crate::graph::Times;
use crate::liberty::HeaderView;
use crate::merges;

verus! {

/// A driver is measured at its library's output threshold, a load at its input threshold, both
/// between the slew thresholds, derated, of the transition.
pub proof fn lemma_thresholds_of_a_library(h: HeaderView, rf: int)
    ensures
        delays::output_thresholds(h, rf) == (Thresholds {
            vth: h.output_threshold[rf],
            vl: h.slew_lower_threshold[rf],
            vh: h.slew_upper_threshold[rf],
            slew_derate: h.slew_derate,
        }),
        delays::input_thresholds(h, rf) == (Thresholds {
            vth: h.input_threshold[rf],
            vl: h.slew_lower_threshold[rf],
            vh: h.slew_upper_threshold[rf],
            slew_derate: h.slew_derate,
        }),
        delays::lib_thresholds(h, rf) == (LibThresholds {
            output: h.output_threshold[rf],
            input: h.input_threshold[rf],
            lower: h.slew_lower_threshold[rf],
            upper: h.slew_upper_threshold[rf],
            derate: h.slew_derate,
        }),
{
}

/// What the wire of a root takes, and the slew it hands on: with an Elmore delay, that delay times
/// how many time constants the load takes to its input threshold, and times how many it takes
/// between its slew thresholds; without one, nothing.
pub open spec fn root_times(c: CalcView, pe: Option<Reduced>, w: int, rf: int) -> (F64, F64) {
    let load = c.g.edges[w].to as int;
    let lib = calc_laws::measured_by(c, load);
    let logs = c.logs[lib].input[rf];
    let wire = match delays::load_elmore(pe, c.g.vertices[load].name) {
        Some(el) => (
            (-el).widened() * logs.rest,
            F64(0) + el.widened() * logs.slew / c.g.libs[lib].header.slew_derate.widened(),
        ),
        None => (F64(0), F64(0)),
    };
    c.adjust(0, load, rf, wire)
}

proof fn lemma_root_wire(c: CalcView, pe: Option<Reduced>, w: int, rf: int, mm: int, t: Times, x: int, r: int, m: int)
    requires
        c.g.valid(),
        t.fits(c.g),
        0 <= w < c.g.edges.len(),
        c.g.edges[w].kind is Wire,
        0 <= x < c.g.edges.len(),
        c.g.edges[x].kind is Wire,
        0 <= rf < 2,
        0 <= mm < 2,
        0 <= r < 2,
        0 <= m < 2,
    ensures
        ({
            let after = c.root_wire(pe, w, rf, mm, t);
            &&& after.fits(c.g)
            &&& w == x && rf == r && mm == m ==> after.delay[x][r][m] == root_times(c, pe, w, rf).0.narrowed()
            &&& !(w == x && rf == r && mm == m) ==> after.delay[x][r][m] == t.delay[x][r][m]
        }),
{
    assert(c.g.edge_valid(c.g.edges[w]));
    let load = c.g.edges[w].to as int;
    let (delay, slew) = root_times(c, pe, w, rf);
    let first = t.with_slew(load, rf, mm, slew.narrowed());
    delay_laws::lemma_slew_fits(t, c.g, load, rf, mm, slew.narrowed());
    delay_laws::lemma_delay_fits(first, c.g, w, rf, mm, delay.narrowed());
    assert(t.delay[x].len() == 2 && t.delay[x][r].len() == 2);
    assert(t.delay[w].len() == 2 && t.delay[w][rf].len() == 2);
    assert(c.root_wire(pe, w, rf, mm, t) == first.with_delay(w, rf, mm, delay.narrowed()));
}

proof fn lemma_root_wires(
    c: CalcView,
    v: int,
    pe: Option<Reduced>,
    wires: Seq<usize>,
    k: int,
    rf: int,
    mm: int,
    t: Times,
    y: int,
    r: int,
    m: int,
)
    requires
        c.g.valid(),
        t.fits(c.g),
        delay_laws::wires_from(c.g, v, wires),
        0 <= k,
        0 <= y < wires.len(),
        0 <= rf < 2,
        0 <= mm < 2,
        0 <= r < 2,
        0 <= m < 2,
    ensures
        ({
            let after = c.root_wires(pe, wires, k, rf, mm, t);
            let w = wires[y] as int;
            let value = root_times(c, pe, w, r).0.narrowed();
            &&& after.fits(c.g)
            &&& rf == r && mm == m && (y >= k || t.delay[w][r][m] == value) ==> after.delay[w][r][m] == value
            &&& !(rf == r && mm == m) ==> after.delay[w][r][m] == t.delay[w][r][m]
        }),
    decreases wires.len() - k,
{
    if k < wires.len() {
        let (w, x) = (wires[k] as int, wires[y] as int);
        assert(wires[k] < c.g.edges.len() && wires[y] < c.g.edges.len());
        lemma_root_wire(c, pe, w, rf, mm, t, x, r, m);
        lemma_root_wires(c, v, pe, wires, k + 1, rf, mm, c.root_wire(pe, w, rf, mm, t), y, r, m);
    }
}

proof fn lemma_root_corners(c: CalcView, v: int, wires: Seq<usize>, corner: int, t: Times, y: int, r: int, m: int)
    requires
        c.g.valid(),
        t.fits(c.g),
        delay_laws::wires_from(c.g, v, wires),
        0 <= corner,
        0 <= y < wires.len(),
        0 <= r < 2,
        0 <= m < 2,
    ensures
        ({
            let after = c.root_corners(v, wires, corner, t);
            let w = wires[y] as int;
            let value = root_times(c, c.reduce(v, r, m), w, r).0.narrowed();
            &&& corner <= 2 * r + m ==> after.delay[w][r][m] == value
            &&& corner > 2 * r + m ==> after.delay[w][r][m] == t.delay[w][r][m]
        }),
    decreases 4 - corner,
{
    if corner < 4 {
        let (rf, mm) = (corner / 2, corner % 2);
        assert(rf == r && mm == m <==> corner == 2 * r + m);
        lemma_root_wires(c, v, c.reduce(v, rf, mm), wires, 0, rf, mm, t, y, r, m);
        let next = c.root_wires(c.reduce(v, rf, mm), wires, 0, rf, mm, t);
        lemma_root_corners(c, v, wires, corner + 1, next, y, r, m);
    }
}

/// Once delays are calculated, a wire of a port that nothing drives has the delay of its load's Elmore
/// delay at the load's input threshold, for each transition and min/max.
pub proof fn lemma_root_wires_take_their_elmore_delay(c: CalcView, run: delays::Run, w: int, rf: int, mm: int)
    requires
        c.g.valid(),
        c.g.libs_valid(),
        run.times.fits(c.g),
        c.delays(run) is Ok,
        0 <= w < c.g.edges.len(),
        c.g.edges[w].kind is Wire,
        c.g.vertices[c.g.edges[w].from as int].is_driver,
        delays::propagating(c.g, c.g.in_edges[c.g.edges[w].from as int]).len() == 0,
        0 <= rf < 2,
        0 <= mm < 2,
    ensures
        c.delays(run)->Ok_0.times.delay[w][rf][mm] == root_times(
            c,
            c.reduce(c.g.edges[w].from as int, rf, mm),
            w,
            rf,
        ).0.narrowed(),
{
    let g = c.g;
    let v = g.edges[w].from as int;
    assert(g.edge_valid(g.edges[w]));
    let before = merges::lemma_visited(c, run, v);
    let wires = delays::wires_among(g, g.out_edges[v]);
    delay_laws::lemma_lists(g, v);
    let y = merges::lemma_wire_listed(g, v, w);
    let zeros = before.times.with_slews(v, delays::zero_pair());
    assert(zeros.fits(g));
    lemma_root_corners(c, v, wires, 0, zeros, y, rf, mm);
    assert(wires[y] == w);
    assert(delay_laws::owner(g, w) == v);
    assert(!g.checks(w));
    assert(c.visit(v, before)->Ok_0.times.delay[w] == c.delays(run)->Ok_0.times.delay[w]);
}

} // verus!
