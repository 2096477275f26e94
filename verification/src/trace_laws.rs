//! The trace of a delay calculation: it is written beside the calculation and never read by it.

use vstd::prelude::*;
use crate::dcalc::DmpView;
use crate::delays;
use crate::delays::{CalcView, Reduced, Run, Step};
use crate::float64::F64;
use crate::topology;

verus! {

/// A line of the calculator's trace: of a gate or of a load.
pub open spec fn trace_line(line: Seq<char>) -> bool {
    "dcalc|gate|"@.is_prefix_of(line) || "dcalc|load|"@.is_prefix_of(line)
}

/// A trace with lines of the calculator appended.
pub open spec fn continues(before: Seq<Seq<char>>, after: Seq<Seq<char>>) -> bool {
    &&& before.is_prefix_of(after)
    &&& forall|i: int| before.len() <= i < after.len() ==> trace_line(#[trigger] after[i])
}

/// Two runs at the same slews and delays, the one without a trace, the other with one that
/// continues `t0`: without a parasitic it still is `t0`.
pub open spec fn beside(c: CalcView, t0: Seq<Seq<char>>, quiet: Run, traced: Run) -> bool {
    &&& quiet.times == traced.times
    &&& quiet.trace is None
    &&& traced.trace is Some
    &&& continues(t0, traced.trace->0)
    &&& c.parasitics == Map::<Seq<char>, delays::NetParasiticsView>::empty() ==> traced.trace->0 == t0
}

/// Both runs go on beside each other, or both end so for the same reason.
pub open spec fn ends_beside(c: CalcView, t0: Seq<Seq<char>>, quiet: Step, traced: Step) -> bool {
    match (quiet, traced) {
        (Ok(q), Ok(r)) => beside(c, t0, q, r),
        (Err((q, a)), Err((r, b))) => beside(c, t0, q, r) && a == b,
        _ => false,
    }
}

proof fn lemma_gate_line(
    name: Seq<char>,
    arc: crate::liberty::ArcView,
    in_slew: crate::float32::F32,
    p: crate::parasitics::PiElmoreView,
    d: DmpView,
    delay: F64,
    slew: F64,
)
    ensures
        trace_line(delays::gate_line(name, arc, in_slew, p, d, delay, slew)),
{
    let line = delays::gate_line(name, arc, in_slew, p, d, delay, slew);
    let head = "dcalc|gate|"@;
    assert(line.len() >= head.len());
    assert(head =~= line.subrange(0, head.len() as int));
}

proof fn lemma_load_line(driver: Seq<char>, load: Seq<char>, delay: F64, slew: F64)
    ensures
        trace_line(delays::load_line(driver, load, delay, slew)),
{
    let line = delays::load_line(driver, load, delay, slew);
    let head = "dcalc|load|"@;
    assert(line.len() >= head.len());
    assert(head =~= line.subrange(0, head.len() as int));
}

proof fn lemma_note(c: CalcView, t0: Seq<Seq<char>>, quiet: Run, traced: Run, line: Seq<char>)
    requires
        beside(c, t0, quiet, traced),
        trace_line(line),
        c.parasitics != Map::<Seq<char>, delays::NetParasiticsView>::empty(),
    ensures
        beside(c, t0, quiet.note(line), traced.note(line)),
{
    let before = traced.trace->0;
    let after = before.push(line);
    assert(t0 =~= after.subrange(0, t0.len() as int)) by {
        assert(t0 =~= before.subrange(0, t0.len() as int));
        assert forall|i: int| 0 <= i < t0.len() implies t0[i] == after[i] by {
            assert(t0[i] == before.subrange(0, t0.len() as int)[i]);
        }
    }
    assert forall|i: int| t0.len() <= i < after.len() implies trace_line(#[trigger] after[i]) by {
        if i < before.len() {
            assert(after[i] == before[i]);
        }
    }
}

proof fn lemma_arc_wires_beside(
    c: CalcView,
    t0: Seq<Seq<char>>,
    v: int,
    wires: Seq<usize>,
    k: int,
    rf: int,
    mm: int,
    slew: F64,
    d: Option<DmpView>,
    pe: Option<Reduced>,
    quiet: Run,
    traced: Run,
)
    requires
        beside(c, t0, quiet, traced),
        d is Some ==> c.parasitics != Map::<Seq<char>, delays::NetParasiticsView>::empty(),
    ensures
        beside(
            c,
            t0,
            c.arc_wires(v, wires, k, rf, mm, slew, d, pe, quiet),
            c.arc_wires(v, wires, k, rf, mm, slew, d, pe, traced),
        ),
    decreases wires.len() - k,
{
    if 0 <= k < wires.len() {
        let w = wires[k] as int;
        let load = c.g.edges[w].to as int;
        let name = c.g.vertices[load].name;
        let elmore = delays::load_elmore(pe, name);
        let wire = match (d, elmore) {
            (Some(s), Some(el)) => s.load_result(el.widened()),
            (Some(_), None) => (F64(0), slew),
            (None, _) => (F64(0), slew.narrowed().widened()),
        };
        let next = match (d, elmore) {
            (Some(s), Some(el)) => Some(s.at_load(el.widened())),
            _ => d,
        };
        let line = delays::load_line(c.g.vertices[v].name, name, wire.0, wire.1);
        lemma_load_line(c.g.vertices[v].name, name, wire.0, wire.1);
        if d is Some {
            lemma_note(c, t0, quiet, traced, line);
        }
        let q = if d is Some {
            quiet.note(line)
        } else {
            quiet
        };
        let r = if d is Some {
            traced.note(line)
        } else {
            traced
        };
        let (delay, load_slew) = c.adjust(c.g.vertices[v].lib->0, load, rf, wire);
        let merged = q.times.merge_slew(load, rf, mm, load_slew.narrowed()).merge_delay(
            w,
            rf,
            mm,
            delay.narrowed(),
        );
        lemma_arc_wires_beside(c, t0, v, wires, k + 1, rf, mm, slew, next, pe, q.at(merged), r.at(merged));
    }
}

proof fn lemma_gate_arc_beside(
    c: CalcView,
    t0: Seq<Seq<char>>,
    v: int,
    wires: Seq<usize>,
    e: int,
    k: int,
    mm: int,
    quiet: Run,
    traced: Run,
)
    requires
        beside(c, t0, quiet, traced),
    ensures
        ends_beside(c, t0, c.gate_arc(v, wires, e, k, mm, quiet), c.gate_arc(v, wires, e, k, mm, traced)),
{
    let arc = c.g.arc_set(e).arcs[k];
    let rf = arc.to_rf as int;
    let in_slew = quiet.times.slew[c.g.edges[e].from as int][arc.from_rf as int][mm];
    let pe = c.arc_parasitic(v, rf, mm);
    if pe is Some {
        let net = c.g.netlist.nets[c.g.vertex_net[v]->0 as int].name;
        assert(c.parasitics.contains_key(net));
        assert(!Map::<Seq<char>, delays::NetParasiticsView>::empty().contains_key(net));
    }
    if let Some((delay, slew, d)) = c.gate_times(v, arc.model->Gate_0, in_slew, rf, mm) {
        assert(d is Some ==> pe is Some);
        let (q, r) = match (d, pe) {
            (Some(s), Some((p, _))) => {
                let line = delays::gate_line(c.g.vertices[v].name, arc, in_slew, p, s, delay, slew);
                lemma_gate_line(c.g.vertices[v].name, arc, in_slew, p, s, delay, slew);
                lemma_note(c, t0, quiet, traced, line);
                (quiet.note(line), traced.note(line))
            },
            _ => (quiet, traced),
        };
        let t = q.times.merge_slew(v, rf, mm, slew.narrowed()).with_delay(e, k, mm, delay.narrowed());
        lemma_arc_wires_beside(c, t0, v, wires, 0, rf, mm, slew, d, pe, q.at(t), r.at(t));
    }
}

proof fn lemma_edge_arcs_beside(
    c: CalcView,
    t0: Seq<Seq<char>>,
    v: int,
    wires: Seq<usize>,
    e: int,
    mm: int,
    k: int,
    quiet: Run,
    traced: Run,
)
    requires
        beside(c, t0, quiet, traced),
    ensures
        ends_beside(c, t0, c.edge_arcs(v, wires, e, mm, k, quiet), c.edge_arcs(v, wires, e, mm, k, traced)),
    decreases 2 - mm, c.g.arc_set(e).arcs.len() - k,
{
    let arcs = c.g.arc_set(e).arcs;
    if mm < 0 || mm >= 2 || k < 0 {
    } else if k >= arcs.len() {
        lemma_edge_arcs_beside(c, t0, v, wires, e, mm + 1, 0, quiet, traced);
    } else if !(arcs[k].model is Gate) {
        lemma_edge_arcs_beside(c, t0, v, wires, e, mm, k + 1, quiet, traced);
    } else {
        lemma_gate_arc_beside(c, t0, v, wires, e, k, mm, quiet, traced);
        if let (Ok(q), Ok(r)) = (
            c.gate_arc(v, wires, e, k, mm, quiet),
            c.gate_arc(v, wires, e, k, mm, traced),
        ) {
            lemma_edge_arcs_beside(c, t0, v, wires, e, mm, k + 1, q, r);
        }
    }
}

proof fn lemma_fanin_edges_beside(
    c: CalcView,
    t0: Seq<Seq<char>>,
    v: int,
    wires: Seq<usize>,
    fanin: Seq<usize>,
    i: int,
    quiet: Run,
    traced: Run,
)
    requires
        beside(c, t0, quiet, traced),
    ensures
        ends_beside(
            c,
            t0,
            c.fanin_edges(v, wires, fanin, i, quiet),
            c.fanin_edges(v, wires, fanin, i, traced),
        ),
    decreases i,
{
    if i > 0 {
        let e = fanin[i - 1] as int;
        if c.g.edges[e].kind is Wire {
            lemma_fanin_edges_beside(c, t0, v, wires, fanin, i - 1, quiet, traced);
        } else if !(c.g.arc_set(e).role is LatchDtoQ) {
            lemma_edge_arcs_beside(c, t0, v, wires, e, 0, 0, quiet, traced);
            if let (Ok(q), Ok(r)) = (
                c.edge_arcs(v, wires, e, 0, 0, quiet),
                c.edge_arcs(v, wires, e, 0, 0, traced),
            ) {
                lemma_fanin_edges_beside(c, t0, v, wires, fanin, i - 1, q, r);
            }
        }
    }
}

proof fn lemma_visit_beside(c: CalcView, t0: Seq<Seq<char>>, v: int, quiet: Run, traced: Run)
    requires
        beside(c, t0, quiet, traced),
    ensures
        ends_beside(c, t0, c.visit(v, quiet), c.visit(v, traced)),
{
    let fanin = delays::propagating(c.g, c.g.in_edges[v]);
    let wires = delays::wires_among(c.g, c.g.out_edges[v]);
    if c.g.vertices[v].is_driver && fanin.len() > 0 {
        let start = c.init_wires(wires, 0, quiet.times).with_slews(v, delays::initial_pair());
        lemma_fanin_edges_beside(
            c,
            t0,
            v,
            wires,
            fanin,
            fanin.len() as int,
            quiet.at(start),
            traced.at(start),
        );
    }
}

proof fn lemma_visit_all_beside(
    c: CalcView,
    t0: Seq<Seq<char>>,
    order: Seq<usize>,
    i: int,
    quiet: Run,
    traced: Run,
)
    requires
        beside(c, t0, quiet, traced),
    ensures
        ends_beside(c, t0, c.visit_all(order, i, quiet), c.visit_all(order, i, traced)),
    decreases order.len() - i,
{
    if 0 <= i < order.len() {
        lemma_visit_beside(c, t0, order[i] as int, quiet, traced);
        if let (Ok(q), Ok(r)) = (c.visit(order[i] as int, quiet), c.visit(order[i] as int, traced)) {
            lemma_visit_all_beside(c, t0, order, i + 1, q, r);
        }
    }
}

proof fn lemma_check_arcs_beside(
    c: CalcView,
    t0: Seq<Seq<char>>,
    e: int,
    k: int,
    mm: int,
    quiet: Run,
    traced: Run,
)
    requires
        beside(c, t0, quiet, traced),
    ensures
        ends_beside(c, t0, c.check_arcs(e, k, mm, quiet), c.check_arcs(e, k, mm, traced)),
    decreases c.g.arc_set(e).arcs.len() - k, 2 - mm,
{
    let arcs = c.g.arc_set(e).arcs;
    if k < 0 || k >= arcs.len() || mm < 0 {
    } else if mm >= 2 || !(arcs[k].model is Check) {
        lemma_check_arcs_beside(c, t0, e, k + 1, 0, quiet, traced);
    } else if let Some(x) = c.check_delay(e, arcs[k], arcs[k].model->Check_0, mm, quiet.times) {
        let t = quiet.times.with_delay(e, k, mm, x);
        lemma_check_arcs_beside(c, t0, e, k, mm + 1, quiet.at(t), traced.at(t));
    }
}

proof fn lemma_check_edges_beside(c: CalcView, t0: Seq<Seq<char>>, e: int, quiet: Run, traced: Run)
    requires
        beside(c, t0, quiet, traced),
    ensures
        ends_beside(c, t0, c.check_edges(e, quiet), c.check_edges(e, traced)),
    decreases c.g.edges.len() - e,
{
    if 0 <= e < c.g.edges.len() {
        if !c.g.checks(e) {
            lemma_check_edges_beside(c, t0, e + 1, quiet, traced);
        } else {
            lemma_check_arcs_beside(c, t0, e, 0, 0, quiet, traced);
            if let (Ok(q), Ok(r)) = (c.check_arcs(e, 0, 0, quiet), c.check_arcs(e, 0, 0, traced)) {
                lemma_check_edges_beside(c, t0, e + 1, q, r);
            }
        }
    }
}

/// A trace changes nothing of a calculation: with one or without, it ends the same way, for the same
/// reason where it is refused, and leaves the same slews and delays. The trace is only added to, by
/// lines that begin with `dcalc|gate|` or `dcalc|load|`, and with no net's parasitics by none.
pub proof fn lemma_trace_changes_nothing(c: CalcView, quiet: Run, traced: Run)
    requires
        quiet.trace is None,
        traced.trace is Some,
        quiet.times == traced.times,
    ensures
        match (c.delays(quiet), c.delays(traced)) {
            (Ok(q), Ok(r)) => beside(c, traced.trace->0, q, r),
            (Err((q, a)), Err((r, b))) => beside(c, traced.trace->0, q, r) && a == b,
            _ => false,
        },
{
    let t0 = traced.trace->0;
    assert(t0 =~= t0.subrange(0, t0.len() as int));
    assert(beside(c, t0, quiet, traced));
    if let Some(order) = topology::order_of(c.g) {
        lemma_visit_all_beside(c, t0, order, 0, quiet, traced);
        if let (Ok(q), Ok(r)) = (c.visit_all(order, 0, quiet), c.visit_all(order, 0, traced)) {
            lemma_check_edges_beside(c, t0, 0, q, r);
        }
    }
}

} // verus!
