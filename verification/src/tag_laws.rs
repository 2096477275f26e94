//! What a path carries: its tag along arcs, the clock edges and input delays it starts from, and what
//! a check asks of it.

use vstd::prelude::*;
use crate::arrival_laws;
use crate::arrivals;
use crate::crpr_laws;
use crate::float32::F32;
use crate::fuzzy;
use crate::liberty::{ArcView, Role, MAX};
use crate::requireds;
use crate::search;
use crate::search::{ArcRef, CrprPath, Path, SearchView, Sought, Tag};
use crate::whole;

verus! {

/// The path itself, as the clock path that a launched path came by.
pub open spec fn itself(v: usize, p: Path, c: CrprPath) -> bool {
    c.vertex == v && c.rf == p.tag.rf && c.mm == p.tag.mm && Some(c.clk_edge) == p.tag.clk_edge
}

/// Through an arc a path keeps its min/max and its clock edge, takes the arc's transition, and
/// arrives by the arc's delay of its own min/max later.
pub proof fn lemma_path_through_an_arc(s: SearchView, v: usize, p: Path, e: int, arc: ArcRef)
    ensures
        s.through(v, p, e, arc) matches Some((tag, delay, arrival)) ==> {
            &&& tag.rf == arc.to_rf
            &&& tag.mm == p.tag.mm
            &&& tag.clk_edge == p.tag.clk_edge
            &&& delay == s.times.delay[e][arc.index as int][p.tag.mm as int]
            &&& arrival == p.arrival + delay
        },
{
}

/// A data path stays a data path, with the clock path it was launched by.
pub proof fn lemma_data_stays_data(s: SearchView, v: usize, p: Path, e: int, arc: ArcRef)
    requires
        !p.tag.is_clock,
    ensures
        s.through(v, p, e, arc) matches Some((tag, _, _)) ==> !tag.is_clock && tag.crpr == p.tag.crpr,
        s.through(v, p, e, arc) is None <==> s.g.role(e) == Some(Role::RegClkToQ) || s.g.role(e) == Some(
            Role::LatchDtoQ,
        ) || s.g.role(e) == Some(Role::LatchEnToQ),
{
}

/// A clock path stays one along wires and combinational arcs. A clock-to-output arc launches a data
/// path from it, which remembers the clock path: the one already remembered, or this one.
pub proof fn lemma_clock_launches_data(s: SearchView, v: usize, p: Path, e: int, arc: ArcRef)
    requires
        p.tag.is_clock,
        p.tag.clk_edge is Some,
    ensures
        s.g.role(e) == Some(Role::RegClkToQ) ==> (s.through(v, p, e, arc) matches Some((tag, _, _)) && !tag.is_clock
            && (p.tag.crpr is Some ==> tag.crpr == p.tag.crpr) && (p.tag.crpr is None ==> (tag.crpr matches Some(c)
            && itself(v, p, c)))),
        s.g.role(e) is None || s.g.role(e) == Some(Role::Combinational) ==> (s.through(v, p, e, arc) matches Some(
            (tag, _, _),
        ) && tag.is_clock),
        s.g.role(e) is Some && s.g.role(e) != Some(Role::Combinational) ==> (s.through(v, p, e, arc) matches Some(
            (tag, _, _),
        ) ==> !tag.is_clock),
        s.g.role(e) == Some(Role::LatchDtoQ) || s.g.role(e) == Some(Role::LatchEnToQ) ==> s.through(v, p, e, arc)
            is None,
{
}

/// A clock path that enters the clock pin of a register over an arc as fast in min as in max is
/// remembered as it was before the arc; along wires and combinational arcs elsewhere what is
/// remembered stays.
pub proof fn lemma_clock_path_remembered(s: SearchView, v: usize, p: Path, e: int, arc: ArcRef)
    requires
        p.tag.is_clock,
        p.tag.clk_edge is Some,
        p.tag.mm < 2,
        s.g.role(e) is None || s.g.role(e) == Some(Role::Combinational),
    ensures
        ({
            let d = s.times.delay[e][arc.index as int];
            let level = fuzzy::close(d[p.tag.mm as int], d[1 - p.tag.mm]);
            s.through(v, p, e, arc) matches Some((tag, _, _)) && if s.is_reg_clk(s.g.edges[e].to as int) && level {
                tag.crpr matches Some(c) && itself(v, p, c)
            } else {
                tag.crpr == p.tag.crpr
            }
        }),
{
}

/// The arcs of a list that start from a transition are all listed, each by its place, with the
/// transition it makes.
pub proof fn lemma_arcs_of_a_transition(arcs: Seq<ArcView>, rf: usize, i: int)
    requires
        arcs.len() <= usize::MAX,
        forall|k: int| 0 <= k < arcs.len() ==> (#[trigger] arcs[k]).to_rf <= usize::MAX,
    ensures
        ({
            let list = search::arcs_out_of(arcs, rf);
            &&& forall|k: int|
                0 <= k < list.len() ==> (#[trigger] list[k]).index < arcs.len() && arcs[list[k].index as int].from_rf == rf
                    && arcs[list[k].index as int].to_rf == list[k].to_rf
            &&& 0 <= i < arcs.len() && arcs[i].from_rf == rf ==> exists|k: int|
                0 <= k < list.len() && (#[trigger] list[k]).index == i
        }),
    decreases arcs.len(),
{
    if arcs.len() > 0 {
        let less = arcs.drop_last();
        assert forall|k: int| 0 <= k < less.len() implies (#[trigger] less[k]).to_rf <= usize::MAX by {
            assert(less[k] == arcs[k]);
        }
        lemma_arcs_of_a_transition(less, rf, i);
        let (before, list) = (search::arcs_out_of(less, rf), search::arcs_out_of(arcs, rf));
        assert(arcs[arcs.len() - 1].to_rf <= usize::MAX);
        assert forall|k: int| 0 <= k < list.len() implies (#[trigger] list[k]).index < arcs.len()
            && arcs[list[k].index as int].from_rf == rf && arcs[list[k].index as int].to_rf == list[k].to_rf by {
            if k < before.len() {
                assert(list[k] == before[k]);
                assert(less[before[k].index as int] == arcs[before[k].index as int]);
            }
        }
        if 0 <= i < arcs.len() && arcs[i].from_rf == rf {
            if i < less.len() {
                assert(less[i] == arcs[i]);
                let k = choose|k: int| 0 <= k < before.len() && (#[trigger] before[k]).index == i;
                assert(list[k] == before[k]);
            } else {
                assert(list[list.len() - 1].index == i);
            }
        }
    }
}

/// A wire hands a transition on as it is.
pub proof fn lemma_wire_keeps_the_transition(s: SearchView, e: int, rf: usize)
    requires
        s.g.edges[e].kind is Wire,
    ensures
        s.arcs_from(e, rf) == seq![ArcRef { index: rf, to_rf: rf }],
{
}

/// The clock path that a launched path remembers.
pub open spec fn remembered(paths: Seq<Seq<Path>>, c: CrprPath, i: int) -> bool {
    let here = paths[c.vertex as int];
    &&& 0 <= i < here.len()
    &&& named_by(here[i].tag, c)
    &&& forall|k: int| 0 <= k < i ==> !named_by((#[trigger] here[k]).tag, c)
}

pub open spec fn named_by(t: Tag, c: CrprPath) -> bool {
    t.is_clock && t.rf == c.rf && t.mm == c.mm && t.clk_edge == Some(c.clk_edge)
}

proof fn lemma_remembered(paths: Seq<Seq<Path>>, c: CrprPath)
    ensures
        forall|i: int| #[trigger]
            remembered(paths, c, i) ==> search::first(paths[c.vertex as int], Sought::Clock(c), 0) == Some(i),
        (forall|i: int| !#[trigger] remembered(paths, c, i)) ==> search::first(
            paths[c.vertex as int],
            Sought::Clock(c),
            0,
        ) is None,
{
    let here = paths[c.vertex as int];
    let sought = Sought::Clock(c);
    search::lemma_first(here, sought, 0);
    assert forall|k: int| 0 <= k < here.len() implies (sought.fits((#[trigger] here[k]).tag) <==> named_by(
        here[k].tag,
        c,
    )) by {}
    if let Some(j) = search::first(here, sought, 0) {
        assert forall|k: int| 0 <= k < j implies !named_by((#[trigger] here[k]).tag, c) by {
            assert(!sought.fits(here[k].tag));
        }
        assert(remembered(paths, c, j));
        assert forall|i: int| #[trigger] remembered(paths, c, i) implies i == j by {
            if i < j {
                assert(!sought.fits(here[i].tag));
            } else if j < i {
                assert(!named_by(here[j].tag, c));
            }
        }
    } else {
        assert forall|i: int| !#[trigger] remembered(paths, c, i) by {
            if 0 <= i < here.len() {
                assert(!sought.fits(here[i].tag));
            }
        }
    }
}

/// A check gives back what the clock path that launched a path and the one that captures it have in
/// common: where the clock is propagated, the two are of opposite min/max, and both come through
/// one vertex, the first that they have in common going back, the smaller of their spreads there.
pub proof fn lemma_check_gives_back_the_common_path(
    s: SearchView,
    paths: Seq<Seq<Path>>,
    path: Path,
    source: Seq<(int, int)>,
    target: Seq<(int, int)>,
    x: F32,
    y: F32,
)
    requires
        s.can_back_up(paths),
        s.sdc.clock.propagated,
        source.len() > 0,
        target.len() > 0,
        path.tag.crpr matches Some(c) && source[0].0 == c.vertex && remembered(paths, c, source[0].1),
        s.has_path(paths, source[0].0, source[0].1),
        s.has_path(paths, target[0].0, target[0].1),
        paths[source[0].0][source[0].1].tag.mm != paths[target[0].0][target[0].1].tag.mm,
        crpr_laws::followed_back(paths, source),
        crpr_laws::followed_back(paths, target),
        crpr_laws::meet(source, target, source.len() - 1, target.len() - 1),
        forall|k: int, l: int| #[trigger]
            crpr_laws::meet(source, target, k, l) ==> k == source.len() - 1 && l == target.len() - 1,
        crpr_laws::apart(paths[source.last().0], source.last().1, x),
        crpr_laws::apart(paths[target.last().0], target.last().1, y),
    ensures
        crpr_laws::lesser(x, y, s.check_crpr(paths, path, target[0].0, target[0].1)),
{
    let c = path.tag.crpr->0;
    lemma_remembered(paths, c);
    assert(remembered(paths, c, source[0].1));
    crpr_laws::lemma_credit_at_the_common_pin(s, paths, source, target, x, y);
}

/// A check gives nothing back to a path without a launching clock path, against a clock path of the
/// same min/max, and where the clock is not propagated.
pub proof fn lemma_check_gives_nothing_back(s: SearchView, paths: Seq<Seq<Path>>, path: Path, v: int, j: int, i: int)
    requires
        path.tag.crpr is None || !s.sdc.clock.propagated || (path.tag.crpr matches Some(c) && remembered(paths, c, i)
            && paths[c.vertex as int][i].tag.mm == paths[v][j].tag.mm),
    ensures
        s.check_crpr(paths, path, v, j) == F32(0),
{
    if let Some(c) = path.tag.crpr {
        lemma_remembered(paths, c);
    }
}

/// The times a setup check is made of: when the capturing clock path arrives, the time of its edge,
/// the time between the launching edge and the capturing one, the margin of the check and what is
/// given back.
pub ghost struct Setup {
    pub arrival: int,
    pub edge: int,
    pub cycle: int,
    pub margin: int,
    pub credit: int,
}

/// A time of up to 20 bits.
pub open spec fn short(n: int) -> bool {
    -0x10_0000 < n < 0x10_0000
}

/// A setup check requires a path by when the capturing clock edge arrives, counted from that edge,
/// plus the time from the launching edge to it, less the margin, plus what is given back: exactly so
/// where the times are whole numbers that fit.
pub proof fn lemma_setup_required_adds_up(
    s: SearchView,
    paths: Seq<Seq<Path>>,
    path: Path,
    src: usize,
    v: int,
    j: int,
    margin: F32,
    at: Setup,
)
    requires
        ({
            let tgt = paths[v][j];
            let edge = tgt.tag.clk_edge->0 as int;
            &&& whole::single_whole(tgt.arrival, at.arrival)
            &&& whole::single_whole(s.sdc.clock.waveform[edge], at.edge)
            &&& whole::single_whole(s.sdc.clock.setup_required(src as int, edge), at.cycle)
            &&& whole::single_whole(margin, at.margin)
            &&& whole::single_whole(s.check_crpr(paths, path, v, j), at.credit)
        }),
        short(at.arrival),
        short(at.edge),
        short(at.cycle),
        short(at.margin),
        short(at.credit),
    ensures
        whole::single_whole(
            s.setup_required(paths, path, src, v, j, margin),
            at.arrival - at.edge + at.cycle - at.margin + at.credit,
        ),
{
    let tgt = paths[v][j];
    let edge = tgt.tag.clk_edge->0 as int;
    let zero = F32(0);
    whole::lemma_single_zero(zero);
    let a = tgt.arrival - s.sdc.clock.waveform[edge];
    whole::lemma_single_difference(tgt.arrival, at.arrival, s.sdc.clock.waveform[edge], at.edge);
    let latency = a - zero;
    let l = at.arrival - at.edge;
    whole::lemma_single_difference(a, l, zero, 0);
    whole::lemma_single_sum(zero, 0, latency, l);
    let cycle = s.sdc.clock.setup_required(src as int, edge);
    whole::lemma_single_sum(zero + latency, l, cycle, at.cycle);
    let arrival = (zero + latency) + cycle;
    whole::lemma_single_sum(margin, at.margin, zero, 0);
    whole::lemma_single_difference(arrival, l + at.cycle, margin + zero, at.margin);
    whole::lemma_single_sum(
        arrival - (margin + zero),
        l + at.cycle - at.margin,
        s.check_crpr(paths, path, v, j),
        at.credit,
    );
}

/// An output delay requires a path by the time from its launching edge to the clock's next rise, less
/// the delay: exactly so where the times are whole numbers that fit.
pub proof fn lemma_output_required_adds_up(
    s: SearchView,
    paths: Seq<Seq<Path>>,
    v: int,
    i: int,
    d: int,
    src: usize,
    cycle: int,
    delay: int,
)
    requires
        s.output_delay(v) == Some(d),
        paths[v][i].tag.clk_edge == Some(src),
        whole::single_whole(s.sdc.clock.setup_required(src as int, 0), cycle),
        whole::single_whole(s.sdc.output_delays[d].delay[paths[v][i].tag.rf as int][MAX as int], delay),
        short(cycle),
        short(delay),
    ensures
        s.port_bound(paths, v, i) matches Some(x) && whole::single_whole(x, cycle - delay),
{
    let zero = F32(0);
    let time = s.sdc.clock.setup_required(src as int, 0);
    let margin = s.sdc.output_delays[d].delay[paths[v][i].tag.rf as int][MAX as int];
    whole::lemma_single_zero(zero);
    whole::lemma_single_sum(zero, 0, zero, 0);
    whole::lemma_single_sum(time, cycle, zero + zero, 0);
    whole::lemma_single_difference(time + (zero + zero), cycle, margin, delay);
}

/// The first path of another that differs from it in its clock path alone, if in anything.
pub open spec fn rival(winners: Seq<Path>, p: Path, i: int) -> bool {
    &&& 0 <= i < winners.len()
    &&& rivals(winners[i].tag, p.tag)
    &&& forall|k: int| 0 <= k < i ==> !rivals((#[trigger] winners[k]).tag, p.tag)
}

pub open spec fn rivals(a: Tag, b: Tag) -> bool {
    a.rf == b.rf && a.mm == b.mm && a.clk_edge == b.clk_edge && a.is_clock == b.is_clock
}

/// The most that could be given back to a path: how far apart the clock path it remembers arrives;
/// nothing where there is no such path.
pub open spec fn restorable(paths: Seq<Seq<Path>>, c: CrprPath, x: F32) -> bool {
    &&& forall|k: int| #[trigger] remembered(paths, c, k) ==> crpr_laws::apart(paths[c.vertex as int], k, x)
    &&& (forall|k: int| !#[trigger] remembered(paths, c, k)) ==> x == F32(0)
}

/// A path is beaten by another: a data path by one with another clock path of the same min/max, even
/// when that one is given back all that could be.
pub open spec fn beaten(p: Path, won: Path, most: F32) -> bool {
    &&& !p.tag.is_clock
    &&& p.tag.crpr is Some
    &&& won.tag.crpr is Some
    &&& won.tag.crpr->0.mm == p.tag.crpr->0.mm
    &&& won.tag.crpr->0.vertex != p.tag.crpr->0.vertex
    &&& if p.tag.mm == MAX {
        fuzzy::above(won.arrival - most, p.arrival)
    } else {
        fuzzy::below(won.arrival + most, p.arrival)
    }
}

/// A path is pruned where its first rival among the winners beats it by more than could be given
/// back to the rival, and in no other case.
pub proof fn lemma_only_beaten_paths_are_pruned(
    s: SearchView,
    paths: Seq<Seq<Path>>,
    winners: Seq<Path>,
    p: Path,
    i: int,
    most: F32,
)
    requires
        s.can_back_up(paths),
        rival(winners, p, i) ==> (winners[i].tag.crpr matches Some(c) ==> c.vertex < paths.len() && restorable(
            paths,
            c,
            most,
        )),
    ensures
        rival(winners, p, i) ==> (s.keeps(paths, winners, p) <==> !beaten(p, winners[i], most)),
        (forall|k: int| !#[trigger] rival(winners, p, k)) ==> s.keeps(paths, winners, p),
{
    let sought = Sought::Like(p.tag);
    search::lemma_first(winners, sought, 0);
    assert forall|k: int| 0 <= k < winners.len() implies (sought.fits((#[trigger] winners[k]).tag) <==> rivals(
        winners[k].tag,
        p.tag,
    )) by {}
    if let Some(j) = search::first(winners, sought, 0) {
        assert forall|k: int| 0 <= k < j implies !rivals((#[trigger] winners[k]).tag, p.tag) by {
            assert(!sought.fits(winners[k].tag));
        }
        assert(rival(winners, p, j));
        if rival(winners, p, i) {
            if i < j {
                assert(!sought.fits(winners[i].tag));
            } else if j < i {
                assert(!rivals(winners[j].tag, p.tag));
            }
            if let Some(c) = winners[i].tag.crpr {
                lemma_remembered(paths, c);
                if let Some(k) = search::first(paths[c.vertex as int], Sought::Clock(c), 0) {
                    search::lemma_first(paths[c.vertex as int], Sought::Clock(c), 0);
                    if !remembered(paths, c, k) {
                        assert(forall|z: int| !#[trigger] remembered(paths, c, z));
                    }
                    crpr_laws::lemma_spread(s, paths, c.vertex as int, k);
                }
                assert(s.most_crpr(paths, winners[i].tag) == most);
            }
        }
    } else if rival(winners, p, i) {
        assert(!sought.fits(winners[i].tag));
    }
}

/// A list holds a path that starts with this tag at this time.
pub open spec fn begins(list: Seq<Path>, tag: Tag, arrival: F32) -> bool {
    exists|i: int|
        0 <= i < list.len() && (#[trigger] list[i]).tag == tag && list[i].arrival == arrival && list[i].prev is None
}

proof fn lemma_seeded(list: Seq<Path>, tag: Tag, arrival: F32, other: Tag, at: F32)
    ensures
        begins(arrivals::seeded_tag(list, tag, arrival), tag, arrival),
        begins(list, other, at) && (other.rf != tag.rf || other.mm != tag.mm) ==> begins(
            arrivals::seeded_tag(list, tag, arrival),
            other,
            at,
        ),
{
    let place = search::first(list, Sought::Same(tag), 0);
    search::lemma_first(list, Sought::Same(tag), 0);
    let after = arrivals::seeded_tag(list, tag, arrival);
    let i = match place {
        Some(i) => i,
        None => list.len() as int,
    };
    assert(after[i].tag == tag);
    if begins(list, other, at) && (other.rf != tag.rf || other.mm != tag.mm) {
        let k = choose|k: int|
            0 <= k < list.len() && (#[trigger] list[k]).tag == other && list[k].arrival == at && list[k].prev is None;
        assert(k != i);
        assert(after[k] == list[k]);
    }
}

proof fn lemma_clock_seeds_begin(s: SearchView, c: int, list: Seq<Path>, rf: usize, mm: usize)
    requires
        rf < 2,
        mm < 2,
        0 <= c,
    ensures
        ({
            let tag = Tag { rf, mm, clk_edge: Some(rf), is_clock: true, crpr: None };
            let arrival = F32(0) + s.sdc.clock.waveform[rf as int];
            c <= 2 * mm + rf || begins(list, tag, arrival) ==> begins(s.clock_seeds(c, list), tag, arrival)
        }),
    decreases 4 - c,
{
    if c < 4 {
        let (m, r) = ((c / 2) as usize, (c % 2) as usize);
        let tag = Tag { rf: r, mm: m, clk_edge: Some(r), is_clock: true, crpr: None };
        let arrival = F32(0) + s.sdc.clock.waveform[r as int];
        let other = Tag { rf, mm, clk_edge: Some(rf), is_clock: true, crpr: None };
        lemma_seeded(list, tag, arrival, other, F32(0) + s.sdc.clock.waveform[rf as int]);
        lemma_clock_seeds_begin(s, c + 1, arrivals::seeded_tag(list, tag, arrival), rf, mm);
    }
}

proof fn lemma_input_seeds_begin(s: SearchView, d: int, c: int, list: Seq<Path>, rf: usize, mm: usize)
    requires
        rf < 2,
        mm < 2,
        0 <= c,
    ensures
        ({
            let tag = Tag { rf, mm, clk_edge: Some(0), is_clock: false, crpr: None };
            let arrival = s.sdc.clock.waveform[0] + s.sdc.input_delays[d].delay[rf as int][mm as int];
            c <= 2 * mm + rf || begins(list, tag, arrival) ==> begins(s.input_seeds(d, c, list), tag, arrival)
        }),
    decreases 4 - c,
{
    if c < 4 {
        let (m, r) = ((c / 2) as usize, (c % 2) as usize);
        let tag = Tag { rf: r, mm: m, clk_edge: Some(0), is_clock: false, crpr: None };
        let arrival = s.sdc.clock.waveform[0] + s.sdc.input_delays[d].delay[r as int][m as int];
        let other = Tag { rf, mm, clk_edge: Some(0), is_clock: false, crpr: None };
        let at = s.sdc.clock.waveform[0] + s.sdc.input_delays[d].delay[rf as int][mm as int];
        lemma_seeded(list, tag, arrival, other, at);
        lemma_input_seeds_begin(s, d, c + 1, arrivals::seeded_tag(list, tag, arrival), rf, mm);
    }
}

proof fn lemma_order_keeps_begins(list: Seq<Path>, ids: Seq<usize>, tag: Tag, arrival: F32)
    requires
        begins(list, tag, arrival),
    ensures
        begins(arrivals::in_tag_order(list, ids), tag, arrival),
{
    let k = choose|k: int|
        0 <= k < list.len() && (#[trigger] list[k]).tag == tag && list[k].arrival == arrival && list[k].prev is None;
    let p = list[k];
    arrival_laws::lemma_order_keeps_paths(list, ids, p);
    assert(arrivals::listed(list, p));
    let all = arrivals::in_tag_order(list, ids);
    let z = choose|z: int| 0 <= z < all.len() && #[trigger] all[z] == p;
    assert(all[z].tag == tag);
}

/// At its source port the clock starts a clock path of each transition, for min and for max, at that
/// edge of its waveform.
pub proof fn lemma_clock_starts_at_its_source(s: SearchView, paths: Seq<Seq<Path>>, v: int, rf: usize, mm: usize)
    requires
        s.g.vertices[v].lib is None,
        s.g.vertices[v].name == s.sdc.clock.source,
        rf < 2,
        mm < 2,
    ensures
        begins(
            s.arrivals_at(paths, v),
            Tag { rf, mm, clk_edge: Some(rf), is_clock: true, crpr: None },
            F32(0) + s.sdc.clock.waveform[rf as int],
        ),
{
    let kept = s.pruned(paths, v, s.fanin(paths, v));
    lemma_clock_seeds_begin(s, 0, kept, rf, mm);
    lemma_order_keeps_begins(
        s.seeded(v, kept),
        s.vertex_id,
        Tag { rf, mm, clk_edge: Some(rf), is_clock: true, crpr: None },
        F32(0) + s.sdc.clock.waveform[rf as int],
    );
}

/// At an input port with a delay, the last given for it, a data path of each transition starts, for
/// min and for max, that delay after the clock's rise.
pub proof fn lemma_input_starts_after_its_delay(
    s: SearchView,
    paths: Seq<Seq<Path>>,
    v: int,
    d: int,
    rf: usize,
    mm: usize,
)
    requires
        s.g.vertices[v].lib is None,
        s.g.vertices[v].name != s.sdc.clock.source,
        0 <= d < s.sdc.input_delays.len() <= usize::MAX,
        s.sdc.input_delays[d].port == s.g.vertices[v].name,
        forall|k: int| d < k < s.sdc.input_delays.len() ==> (#[trigger] s.sdc.input_delays[k]).port
            != s.g.vertices[v].name,
        rf < 2,
        mm < 2,
    ensures
        begins(
            s.arrivals_at(paths, v),
            Tag { rf, mm, clk_edge: Some(0), is_clock: false, crpr: None },
            s.sdc.clock.waveform[0] + s.sdc.input_delays[d].delay[rf as int][mm as int],
        ),
{
    let kept = s.pruned(paths, v, s.fanin(paths, v));
    lemma_last_delay(s.sdc.input_delays, s.g.vertices[v].name, d);
    lemma_input_seeds_begin(s, d, 0, kept, rf, mm);
    lemma_order_keeps_begins(
        s.seeded(v, kept),
        s.vertex_id,
        Tag { rf, mm, clk_edge: Some(0), is_clock: false, crpr: None },
        s.sdc.clock.waveform[0] + s.sdc.input_delays[d].delay[rf as int][mm as int],
    );
}

proof fn lemma_last_delay(list: Seq<crate::sdc::PortDelayView>, name: Seq<char>, d: int)
    requires
        0 <= d < list.len() <= usize::MAX,
        list[d].port == name,
        forall|k: int| d < k < list.len() ==> (#[trigger] list[k]).port != name,
    ensures
        search::delay_index(list).contains_key(name),
        search::delay_index(list)[name] == d,
    decreases list.len(),
{
    let less = list.drop_last();
    if d < less.len() {
        assert forall|k: int| d < k < less.len() implies (#[trigger] less[k]).port != name by {
            assert(less[k] == list[k]);
        }
        assert(list[list.len() - 1].port != name);
        lemma_last_delay(less, name, d);
    }
}

/// The first path that is tagged alike.
pub open spec fn first_alike(paths: Seq<Path>, tag: Tag, i: int) -> bool {
    &&& 0 <= i < paths.len()
    &&& crpr_laws::tagged_alike(paths[i].tag, tag)
    &&& forall|k: int| 0 <= k < i ==> !crpr_laws::tagged_alike((#[trigger] paths[k]).tag, tag)
}

/// The required time that a path is held to is that of the path it goes to: of the one that is tagged
/// as it would be or, where that was pruned, of the first that differs from it in its clock path
/// alone; where there is neither, none.
pub proof fn lemma_required_of_the_path_it_goes_to(paths: Seq<Path>, tag: Tag, like: Path, i: int)
    requires
        like.tag == tag,
    ensures
        first_alike(paths, tag, i) ==> requireds::required_of(paths, tag) == Some(paths[i].required),
        (forall|k: int| 0 <= k < paths.len() ==> !crpr_laws::tagged_alike((#[trigger] paths[k]).tag, tag)) && rival(
            paths,
            like,
            i,
        ) ==> requireds::required_of(paths, tag) == Some(paths[i].required),
        (forall|k: int| 0 <= k < paths.len() ==> !rivals((#[trigger] paths[k]).tag, tag)) ==> requireds::required_of(
            paths,
            tag,
        ) is None,
{
    let (same, close) = (Sought::Same(tag), Sought::Like(tag));
    search::lemma_first(paths, same, 0);
    search::lemma_first(paths, close, 0);
    assert forall|k: int| 0 <= k < paths.len() implies (same.fits((#[trigger] paths[k]).tag)
        <==> crpr_laws::tagged_alike(paths[k].tag, tag)) && (close.fits(paths[k].tag) <==> rivals(
        paths[k].tag,
        tag,
    )) by {}
    if first_alike(paths, tag, i) {
        match search::first(paths, same, 0) {
            Some(j) => {
                if i < j {
                    assert(!same.fits(paths[i].tag));
                } else if j < i {
                    assert(!crpr_laws::tagged_alike(paths[j].tag, tag));
                }
            },
            None => {
                assert(!same.fits(paths[i].tag));
            },
        }
    }
    if forall|k: int| 0 <= k < paths.len() ==> !crpr_laws::tagged_alike((#[trigger] paths[k]).tag, tag) {
        if let Some(j) = search::first(paths, same, 0) {
            assert(same.fits(paths[j].tag));
        }
        if rival(paths, like, i) {
            match search::first(paths, close, 0) {
                Some(j) => {
                    if i < j {
                        assert(!close.fits(paths[i].tag));
                    } else if j < i {
                        assert(!rivals(paths[j].tag, tag));
                    }
                },
                None => {
                    assert(!close.fits(paths[i].tag));
                },
            }
        }
    }
    if forall|k: int| 0 <= k < paths.len() ==> !rivals((#[trigger] paths[k]).tag, tag) {
        if let Some(j) = search::first(paths, same, 0) {
            assert(same.fits(paths[j].tag));
            assert(rivals(paths[j].tag, tag));
        }
        if let Some(j) = search::first(paths, close, 0) {
            assert(close.fits(paths[j].tag));
        }
    }
}

} // verus!
