//! The arrivals of a search.

use vstd::prelude::*;
use crate::delays;
use crate::float32::F32;
use crate::fuzzy;
use crate::graph;
use crate::liberty::MAX;
use crate::search;
use crate::search::{ArcRef, CrprPath, Key, Path, Prev, Search, SearchView, Sought, Tag};
use crate::topology;

verus! {

/// The paths of a vertex while its fanin is visited, and per tag without its CRPR clock path the
/// latest path that won.
#[verifier::ext_equal]
pub struct Built {
    pub paths: Seq<Path>,
    pub winners: Seq<Path>,
}

/// A path put in the place of another, or at the end.
pub open spec fn put(paths: Seq<Path>, at: Option<int>, p: Path) -> Seq<Path> {
    match at {
        Some(i) => paths.update(i, p),
        None => paths.push(p),
    }
}

/// A path beats the one in a place, if there is one.
pub open spec fn wins(paths: Seq<Path>, at: Option<int>, p: Path) -> bool {
    at matches Some(i) ==> delays::worse(p.tag.mm as int, p.arrival, paths[i].arrival)
}

impl Built {
    pub open spec fn none() -> Built {
        Built { paths: Seq::empty(), winners: Seq::empty() }
    }

    /// A path offered: kept where its arrival is fuzzily later (max) or earlier (min) than its
    /// tag's; a winning data path with a CRPR clock path is offered to the winners too, unless the
    /// vertex has a single in-edge.
    pub open spec fn offered(self, p: Path, single: bool) -> Built {
        let at = search::first(self.paths, Sought::Same(p.tag), 0);
        if !wins(self.paths, at, p) {
            self
        } else {
            let like = search::first(self.winners, Sought::Like(p.tag), 0);
            Built {
                paths: put(self.paths, at, p),
                winners: if !single && p.tag.crpr is Some && !p.tag.is_clock && wins(self.winners, like, p) {
                    put(self.winners, like, p)
                } else {
                    self.winners
                },
            }
        }
    }
}

/// A path put behind those that do not come after it.
pub open spec fn inserted(paths: Seq<Path>, p: Path, vertex_id: Seq<usize>) -> Seq<Path>
    decreases paths.len(),
{
    if paths.len() == 0 || search::key_le(paths.last().tag.sort_key(vertex_id), p.tag.sort_key(vertex_id)) {
        paths.push(p)
    } else {
        inserted(paths.drop_last(), p, vertex_id).push(paths.last())
    }
}

/// Paths in the order of their tags, those of equal keys in the order they had.
pub open spec fn in_tag_order(paths: Seq<Path>, vertex_id: Seq<usize>) -> Seq<Path>
    decreases paths.len(),
{
    if paths.len() == 0 {
        paths
    } else {
        inserted(in_tag_order(paths.drop_last(), vertex_id), paths.last(), vertex_id)
    }
}

/// A seed sets (or replaces) its tag's arrival.
pub open spec fn seeded_tag(paths: Seq<Path>, tag: Tag, arrival: F32) -> Seq<Path> {
    put(
        paths,
        search::first(paths, Sought::Same(tag), 0),
        Path { tag, arrival, required: F32(0), prev: None },
    )
}

impl SearchView {
    /// A path from `from_v` offered through the arcs of an edge from the `k`th on.
    pub open spec fn offer_arcs(self, from_v: usize, from: Path, e: int, k: int, single: bool, b: Built) -> Built
        decreases self.arcs_from(e, from.tag.rf).len() - k,
    {
        let arcs = self.arcs_from(e, from.tag.rf);
        if k < 0 || k >= arcs.len() {
            b
        } else {
            self.offer_arcs(
                from_v,
                from,
                e,
                k + 1,
                single,
                match self.through(from_v, from, e, arcs[k]) {
                    None => b,
                    Some((tag, _, arrival)) => b.offered(
                        Path {
                            tag,
                            arrival,
                            required: F32(0),
                            prev: Some(
                                Prev { vertex: from_v, tag: from.tag, edge: e as usize, arc: arcs[k].index },
                            ),
                        },
                        single,
                    ),
                },
            )
        }
    }

    /// The paths at the source of an edge offered through it, from the `j`th on.
    pub open spec fn offer_paths(self, from: Seq<Path>, e: int, j: int, single: bool, b: Built) -> Built
        decreases from.len() - j,
    {
        if j < 0 || j >= from.len() {
            b
        } else {
            self.offer_paths(
                from,
                e,
                j + 1,
                single,
                self.offer_arcs(self.g.edges[e].from, from[j], e, 0, single, b),
            )
        }
    }

    /// The first `i` in-edges, newest first, each path at its source in tag order.
    pub open spec fn offer_edges(self, paths: Seq<Seq<Path>>, ins: Seq<usize>, i: int, single: bool, b: Built) -> Built
        decreases i,
    {
        if i <= 0 {
            b
        } else {
            let e = ins[i - 1] as int;
            self.offer_edges(
                paths,
                ins,
                i - 1,
                single,
                if self.walks(e) {
                    self.offer_paths(paths[self.g.edges[e].from as int], e, 0, single, b)
                } else {
                    b
                },
            )
        }
    }

    /// The paths that reach a vertex along its in-edges.
    pub open spec fn fanin(self, paths: Seq<Seq<Path>>, v: int) -> Built {
        let ins = self.g.in_edges[v];
        self.offer_edges(paths, ins, ins.len() as int, ins.len() == 1, Built::none())
    }

    /// `|arrival - arrival of the opposite min/max|`: of the first path of the opposite min/max and
    /// otherwise the same clock tag; 0 where there is none.
    pub open spec fn arrival_spread(self, paths: Seq<Seq<Path>>, v: int, i: int) -> F32 {
        let p = paths[v][i];
        let other = match search::first(paths[v], Sought::Opposite(p.tag), 0) {
            Some(j) => paths[v][j].arrival,
            None => p.arrival,
        };
        (p.arrival - other).abs_value()
    }

    /// The most CRPR could restore: the arrival spread of the tag's CRPR clock path.
    pub open spec fn most_crpr(self, paths: Seq<Seq<Path>>, tag: Tag) -> F32 {
        match tag.crpr {
            None => F32(0),
            Some(c) => match search::first(paths[c.vertex as int], Sought::Clock(c), 0) {
                None => F32(0),
                Some(i) => self.arrival_spread(paths, c.vertex as int, i),
            },
        }
    }

    /// A path is kept unless it is a data path with a CRPR clock path whose arrival is beaten, by
    /// more than the most CRPR could restore, by the winner of another tag that is alike but for
    /// its CRPR clock path, of the same min/max.
    pub open spec fn keeps(self, paths: Seq<Seq<Path>>, winners: Seq<Path>, p: Path) -> bool {
        if p.tag.is_clock || p.tag.crpr is None {
            true
        } else {
            match search::first(winners, Sought::Like(p.tag), 0) {
                None => true,
                Some(i) => {
                    let won = winners[i];
                    let most = self.most_crpr(paths, won.tag);
                    let beaten = if p.tag.mm == MAX {
                        fuzzy::above(won.arrival - most, p.arrival)
                    } else {
                        fuzzy::below(won.arrival + most, p.arrival)
                    };
                    won.tag.same(p.tag) || !beaten || won.tag.crpr is None || won.tag.crpr->0.mm
                        != p.tag.crpr->0.mm
                },
            }
        }
    }

    pub open spec fn kept(self, paths: Seq<Seq<Path>>, winners: Seq<Path>, built: Seq<Path>) -> Seq<Path>
        decreases built.len(),
    {
        if built.len() == 0 {
            built
        } else {
            let before = self.kept(paths, winners, built.drop_last());
            if self.keeps(paths, winners, built.last()) {
                before.push(built.last())
            } else {
                before
            }
        }
    }

    /// Paths pruned, where the clock is propagated, the vertex has not a single in-edge and some
    /// path is clocked.
    pub open spec fn pruned(self, paths: Seq<Seq<Path>>, v: int, b: Built) -> Seq<Path> {
        if self.sdc.clock.propagated && self.g.in_edges[v].len() != 1 && any_clocked(b.paths) {
            self.kept(paths, b.winners, b.paths)
        } else {
            b.paths
        }
    }

    /// The clock's edges at its source, for the corners from the `c`th on: min rise, min fall, max
    /// rise, max fall.
    pub open spec fn clock_seeds(self, c: int, built: Seq<Path>) -> Seq<Path>
        decreases 4 - c,
    {
        if c < 0 || c >= 4 {
            built
        } else {
            let (mm, rf) = ((c / 2) as usize, (c % 2) as usize);
            let tag = Tag { rf, mm, clk_edge: Some(rf), is_clock: true, crpr: None };
            self.clock_seeds(c + 1, seeded_tag(built, tag, F32(0) + self.sdc.clock.waveform[rf as int]))
        }
    }

    /// The clock's rise edge and input delay `d`, for the corners from the `c`th on.
    pub open spec fn input_seeds(self, d: int, c: int, built: Seq<Path>) -> Seq<Path>
        decreases 4 - c,
    {
        if c < 0 || c >= 4 {
            built
        } else {
            let (mm, rf) = ((c / 2) as usize, (c % 2) as usize);
            let tag = Tag { rf, mm, clk_edge: Some(0), is_clock: false, crpr: None };
            let delay = self.sdc.input_delays[d].delay[rf as int][mm as int];
            self.input_seeds(d, c + 1, seeded_tag(built, tag, self.sdc.clock.waveform[0] + delay))
        }
    }

    /// The seeds of the clock's source port, and of input ports with a delay.
    pub open spec fn seeded(self, v: int, built: Seq<Path>) -> Seq<Path> {
        let x = self.g.vertices[v];
        let inputs = search::delay_index(self.sdc.input_delays);
        if x.lib is Some {
            built
        } else if x.name == self.sdc.clock.source {
            self.clock_seeds(0, built)
        } else if inputs.contains_key(x.name) {
            self.input_seeds(inputs[x.name] as int, 0, built)
        } else {
            built
        }
    }

    /// One vertex's paths: its fanin's, pruned, its seeds, in tag order.
    pub open spec fn arrivals_at(self, paths: Seq<Seq<Path>>, v: int) -> Seq<Path> {
        in_tag_order(self.seeded(v, self.pruned(paths, v, self.fanin(paths, v))), self.vertex_id)
    }

    /// The vertices of an order from the `i`th on.
    pub open spec fn arrivals_along(self, order: Seq<usize>, i: int, paths: Seq<Seq<Path>>) -> Seq<Seq<Path>>
        decreases order.len() - i,
    {
        if i < 0 || i >= order.len() {
            paths
        } else {
            let v = order[i] as int;
            self.arrivals_along(order, i + 1, paths.update(v, self.arrivals_at(paths, v)))
        }
    }
}

pub open spec fn any_clocked(paths: Seq<Path>) -> bool {
    exists|i: int| 0 <= i < paths.len() && (#[trigger] paths[i]).tag.clk_edge is Some
}

/// Paths keyed by tag, in insertion order until sorted, and the winners without CRPR pins.
struct Bldr {
    paths: Vec<Path>,
    winners: Vec<Path>,
}

fn set_path(paths: &mut Vec<Path>, at: Option<usize>, p: Path)
    requires
        at matches Some(i) ==> i < old(paths)@.len(),
    ensures
        final(paths)@ == put(
            old(paths)@,
            match at {
                Some(i) => Some(i as int),
                None => None,
            },
            p,
        ),
{
    match at {
        Some(i) => {
            paths.set(i, p);
        },
        None => {
            paths.push(p);
        },
    }
}

fn beats(paths: &Vec<Path>, at: Option<usize>, p: &Path) -> (r: bool)
    requires
        at matches Some(i) ==> i < paths@.len(),
    ensures
        r == wins(
            paths@,
            match at {
                Some(i) => Some(i as int),
                None => None,
            },
            *p,
        ),
{
    match at {
        Some(i) => delays::is_worse(p.tag.mm, p.arrival, paths[i].arrival),
        None => true,
    }
}

impl Bldr {
    spec fn seen(self) -> Built {
        Built { paths: self.paths@, winners: self.winners@ }
    }

    fn offer(&mut self, p: Path, single: bool)
        ensures
            final(self).seen() == old(self).seen().offered(p, single),
    {
        let at: Option<usize> = search::find(&self.paths, &Sought::Same(p.tag));
        if beats(&self.paths, at, &p) {
            set_path(&mut self.paths, at, p);
            if !single && p.tag.crpr.is_some() && !p.tag.is_clock {
                let like: Option<usize> = search::find(&self.winners, &Sought::Like(p.tag));
                if beats(&self.winners, like, &p) {
                    set_path(&mut self.winners, like, p);
                }
            }
        }
    }
}

/// A list keeps valid when a valid path is put into it.
proof fn lemma_put_valid(s: SearchView, v: int, paths: Seq<Path>, at: Option<int>, p: Path)
    requires
        s.list_valid(v, paths),
        s.path_valid(v, p),
        at matches Some(i) ==> 0 <= i < paths.len(),
    ensures
        s.list_valid(v, put(paths, at, p)),
{
    let after = put(paths, at, p);
    assert forall|i: int| 0 <= i < after.len() implies s.path_valid(v, #[trigger] after[i]) by {
        if i < paths.len() && at != Some(i) {
            assert(after[i] == paths[i]);
        }
    }
}

impl Built {
    spec fn valid(self, s: SearchView, v: int) -> bool {
        s.list_valid(v, self.paths) && s.list_valid(v, self.winners)
    }

    proof fn lemma_offered_valid(self, s: SearchView, v: int, p: Path, single: bool)
        requires
            self.valid(s, v),
            s.path_valid(v, p),
        ensures
            self.offered(p, single).valid(s, v),
    {
        let at = search::first(self.paths, Sought::Same(p.tag), 0);
        let like = search::first(self.winners, Sought::Like(p.tag), 0);
        search::lemma_first(self.paths, Sought::Same(p.tag), 0);
        search::lemma_first(self.winners, Sought::Like(p.tag), 0);
        lemma_put_valid(s, v, self.paths, at, p);
        lemma_put_valid(s, v, self.winners, like, p);
    }
}

impl<'g, 'a> Search<'g, 'a> {
    fn offer_arcs(&self, from_v: usize, from: &Path, e: usize, single: bool, b: &mut Bldr)
        requires
            self.valid(),
            e < self.graph.edges@.len(),
            self@.walks(e as int),
            self.graph.edges@[e as int].from == from_v,
            self@.tag_valid(from.tag),
            old(b).seen().valid(self@, self.graph.edges@[e as int].to as int),
        ensures
            final(b).seen() == self@.offer_arcs(from_v, *from, e as int, 0, single, old(b).seen()),
            final(b).seen().valid(self@, self.graph.edges@[e as int].to as int),
    {
        let ghost s = self@;
        let ghost v = self.graph.edges@[e as int].to as int;
        let ghost all = s.offer_arcs(from_v, *from, e as int, 0, single, b.seen());
        assert(s.g.edge_valid(s.g.edges[e as int]));
        let arcs: Vec<ArcRef> = self.arcs_from(e, from.tag.rf);
        let mut k: usize = 0;
        while k < arcs.len()
            invariant
                self.valid(),
                s == self@,
                v == self.graph.edges@[e as int].to,
                e < self.graph.edges@.len(),
                s.walks(e as int),
                self.graph.edges@[e as int].from == from_v,
                from_v < self.graph.vertices@.len(),
                s.tag_valid(from.tag),
                arcs@ == s.arcs_from(e as int, from.tag.rf),
                forall|i: int|
                    0 <= i < arcs@.len() ==> (#[trigger] arcs@[i]).index < s.times.delay[e as int].len()
                        && arcs@[i].to_rf < 2,
                k <= arcs@.len(),
                b.seen().valid(s, v),
                s.offer_arcs(from_v, *from, e as int, k as int, single, b.seen()) == all,
            decreases arcs@.len() - k,
        {
            let arc: ArcRef = arcs[k];
            assert(arcs@[k as int].index < s.times.delay[e as int].len());
            match self.visit_from_path(from_v, from, e, &arc) {
                Some((tag, _, arrival)) => {
                    let prev: Option<Prev> = Some(
                        Prev { vertex: from_v, tag: from.tag, edge: e, arc: arc.index },
                    );
                    let p: Path = Path { tag, arrival, required: F32(0), prev };
                    proof {
                        assert(s.g.propagates(e as int));
                        b.seen().lemma_offered_valid(s, v, p, single);
                    }
                    b.offer(p, single);
                },
                None => {},
            }
            k = k + 1;
        }
    }

    fn offer_paths(&self, e: usize, single: bool, b: &mut Bldr)
        requires
            self.valid(),
            self@.paths_valid(self.path_lists()),
            e < self.graph.edges@.len(),
            self@.walks(e as int),
            old(b).seen().valid(self@, self.graph.edges@[e as int].to as int),
        ensures
            final(b).seen() == self@.offer_paths(
                self.path_lists()[self.graph.edges@[e as int].from as int],
                e as int,
                0,
                single,
                old(b).seen(),
            ),
            final(b).seen().valid(self@, self.graph.edges@[e as int].to as int),
    {
        let ghost s = self@;
        assert(s.g.edge_valid(s.g.edges[e as int]));
        let from_v: usize = self.graph.edges[e].from;
        let ghost list = self.path_lists()[from_v as int];
        assert(list == self.paths@[from_v as int]@);
        assert(s.list_valid(from_v as int, list));
        let ghost all = s.offer_paths(list, e as int, 0, single, b.seen());
        let mut j: usize = 0;
        while j < self.paths[from_v].len()
            invariant
                self.valid(),
                s == self@,
                e < self.graph.edges@.len(),
                s.walks(e as int),
                self.graph.edges@[e as int].from == from_v,
                from_v < self.paths@.len(),
                list == self.paths@[from_v as int]@,
                s.list_valid(from_v as int, list),
                j <= list.len(),
                b.seen().valid(s, self.graph.edges@[e as int].to as int),
                s.offer_paths(list, e as int, j as int, single, b.seen()) == all,
            decreases list.len() - j,
        {
            assert(s.path_valid(from_v as int, list[j as int]));
            self.offer_arcs(from_v, &self.paths[from_v][j], e, single, b);
            j = j + 1;
        }
    }

    /// In-edges newest first, each fanin path in tag order, each arc from its transition.
    fn visit_fanin_paths(&self, v: usize, single: bool) -> (b: Bldr)
        requires
            self.valid(),
            self@.paths_valid(self.path_lists()),
            v < self.graph.vertices@.len(),
            single == (self@.g.in_edges[v as int].len() == 1),
        ensures
            b.seen() == self@.fanin(self.path_lists(), v as int),
            b.seen().valid(self@, v as int),
    {
        let ghost s = self@;
        let ghost lists = self.path_lists();
        let ghost ins = s.g.in_edges[v as int];
        proof {
            graph::lemma_edges_at(s.g.edges, v as int, true);
            assert(ins == graph::edges_at(s.g.edges, v as int, true));
            assert(s.g.in_edges.len() == self.graph.in_edges@.len());
        }
        let mut b: Bldr = Bldr { paths: Vec::new(), winners: Vec::new() };
        assert(b.seen() =~= Built::none());
        let list: &Vec<usize> = &self.graph.in_edges[v];
        assert(list@ == ins);
        let mut i: usize = list.len();
        while i > 0
            invariant
                self.valid(),
                s == self@,
                lists == self.path_lists(),
                s.paths_valid(lists),
                list@ == ins,
                i <= ins.len(),
                graph::all_below(ins, s.g.edges.len()),
                forall|k: int| 0 <= k < ins.len() ==> v == s.g.edges[#[trigger] ins[k] as int].to,
                b.seen().valid(s, v as int),
                s.offer_edges(lists, ins, i as int, single, b.seen()) == s.offer_edges(
                    lists,
                    ins,
                    ins.len() as int,
                    single,
                    Built::none(),
                ),
            decreases i,
        {
            i = i - 1;
            let e: usize = list[i];
            assert(ins[i as int] < s.g.edges.len() && s.g.edges[ins[i as int] as int].to == v);
            if self.walks(e) {
                self.offer_paths(e, single, &mut b);
            }
        }
        b
    }

    /// `|arrival - arrival of the opposite min/max|`.
    pub(crate) fn crpr_arrival_diff(&self, v: usize, i: usize) -> (r: F32)
        requires
            v < self.paths@.len(),
            i < self.paths@[v as int]@.len(),
        ensures
            r == self@.arrival_spread(self.path_lists(), v as int, i as int),
    {
        assert(self.path_lists()[v as int] == self.paths@[v as int]@);
        let p: Path = self.paths[v][i];
        let other: F32 = match search::find(&self.paths[v], &Sought::Opposite(p.tag)) {
            Some(j) => self.paths[v][j].arrival,
            None => p.arrival,
        };
        (p.arrival - other).abs()
    }

    /// The arrival spread of the tag's CRPR clock path.
    fn max_crpr(&self, tag: &Tag) -> (r: F32)
        requires
            self.paths@.len() == self@.g.vertices.len(),
            self@.tag_valid(*tag),
        ensures
            r == self@.most_crpr(self.path_lists(), *tag),
    {
        match tag.crpr {
            Some(c) => {
                assert(self.path_lists()[c.vertex as int] == self.paths@[c.vertex as int]@);
                match search::find(&self.paths[c.vertex], &Sought::Clock(c)) {
                    Some(i) => self.crpr_arrival_diff(c.vertex, i),
                    None => F32(0),
                }
            },
            None => F32(0),
        }
    }

    fn keeps(&self, winners: &Vec<Path>, p: &Path, Ghost(v): Ghost<int>) -> (r: bool)
        requires
            self.paths@.len() == self@.g.vertices.len(),
            self@.list_valid(v, winners@),
        ensures
            r == self@.keeps(self.path_lists(), winners@, *p),
    {
        let own: CrprPath = match p.tag.crpr {
            Some(c) => c,
            None => {
                return true;
            },
        };
        if p.tag.is_clock {
            return true;
        }
        let i: usize = match search::find(winners, &Sought::Like(p.tag)) {
            Some(i) => i,
            None => {
                return true;
            },
        };
        let won: Path = winners[i];
        assert(self@.path_valid(v, winners@[i as int]));
        if won.tag.matches(&p.tag) {
            return true;
        }
        let most: F32 = self.max_crpr(&won.tag);
        let beaten: bool = if p.tag.mm == MAX {
            fuzzy::greater(won.arrival - most, p.arrival)
        } else {
            fuzzy::less(won.arrival + most, p.arrival)
        };
        let same_mm: bool = match won.tag.crpr {
            Some(c) => c.mm == own.mm,
            None => false,
        };
        !(beaten && same_mm)
    }

    /// Drop a data tag whose arrival is beaten, by more than the most CRPR could restore, by the
    /// winner of the same tag but for its CRPR clock path.
    fn prune_crpr_arrivals(&self, b: &Bldr, Ghost(v): Ghost<int>) -> (r: Vec<Path>)
        requires
            self.paths@.len() == self@.g.vertices.len(),
            b.seen().valid(self@, v),
        ensures
            r@ == self@.kept(self.path_lists(), b.winners@, b.paths@),
            self@.list_valid(v, r@),
    {
        let ghost s = self@;
        let ghost lists = self.path_lists();
        let mut r: Vec<Path> = Vec::new();
        assert(b.paths@.take(0) =~= Seq::<Path>::empty());
        let mut i: usize = 0;
        while i < b.paths.len()
            invariant
                self.paths@.len() == self@.g.vertices.len(),
                s == self@,
                lists == self.path_lists(),
                b.seen().valid(s, v),
                i <= b.paths@.len(),
                r@ == s.kept(lists, b.winners@, b.paths@.take(i as int)),
                s.list_valid(v, r@),
            decreases b.paths@.len() - i,
        {
            assert(b.paths@.take(i + 1).drop_last() =~= b.paths@.take(i as int));
            let p: Path = b.paths[i];
            assert(s.path_valid(v, b.paths@[i as int]));
            if self.keeps(&b.winners, &p, Ghost(v)) {
                proof {
                    lemma_put_valid(s, v, r@, None, p);
                }
                r.push(p);
            }
            i = i + 1;
        }
        assert(b.paths@.take(i as int) =~= b.paths@);
        r
    }
}

/// A seed sets (or replaces) its tag's arrival.
fn set_arrival(paths: &mut Vec<Path>, tag: Tag, arrival: F32, Ghost(s): Ghost<SearchView>, Ghost(v): Ghost<int>)
    requires
        s.list_valid(v, old(paths)@),
        s.tag_valid(tag),
    ensures
        final(paths)@ == seeded_tag(old(paths)@, tag, arrival),
        s.list_valid(v, final(paths)@),
{
    let p: Path = Path { tag, arrival, required: F32(0), prev: None };
    let at: Option<usize> = search::find(paths, &Sought::Same(tag));
    proof {
        lemma_put_valid(
            s,
            v,
            paths@,
            match at {
                Some(i) => Some(i as int),
                None => None,
            },
            p,
        );
    }
    set_path(paths, at, p);
}

proof fn lemma_inserted(paths: Seq<Path>, p: Path, vertex_id: Seq<usize>, at: int)
    requires
        0 <= at <= paths.len(),
        forall|i: int|
            at <= i < paths.len() ==> !search::key_le(
                (#[trigger] paths[i]).tag.sort_key(vertex_id),
                p.tag.sort_key(vertex_id),
            ),
        at > 0 ==> search::key_le(paths[at - 1].tag.sort_key(vertex_id), p.tag.sort_key(vertex_id)),
    ensures
        inserted(paths, p, vertex_id) == paths.insert(at, p),
    decreases paths.len(),
{
    if paths.len() == 0 || at == paths.len() {
        assert(paths.insert(at, p) =~= paths.push(p));
    } else {
        let less = paths.drop_last();
        assert forall|i: int| at <= i < less.len() implies !search::key_le(
            (#[trigger] less[i]).tag.sort_key(vertex_id),
            p.tag.sort_key(vertex_id),
        ) by {
            assert(less[i] == paths[i]);
        }
        assert(!search::key_le(paths[paths.len() - 1].tag.sort_key(vertex_id), p.tag.sort_key(vertex_id)));
        lemma_inserted(less, p, vertex_id, at);
        assert(paths.insert(at, p) =~= less.insert(at, p).push(paths.last()));
    }
}

fn insert(paths: &mut Vec<Path>, p: Path, vertex_id: &Vec<usize>, Ghost(s): Ghost<SearchView>, Ghost(v): Ghost<int>)
    requires
        s.valid(),
        vertex_id@ == s.vertex_id,
        s.list_valid(v, old(paths)@),
        s.path_valid(v, p),
    ensures
        final(paths)@ == inserted(old(paths)@, p, vertex_id@),
        s.list_valid(v, final(paths)@),
{
    let key: Key = p.tag.key(vertex_id.as_slice());
    let mut at: usize = paths.len();
    while at > 0
        invariant_except_break
            s.valid(),
            vertex_id@ == s.vertex_id,
            s.list_valid(v, paths@),
        invariant
            at <= paths@.len(),
            key == p.tag.sort_key(vertex_id@),
            forall|i: int|
                at <= i < paths@.len() ==> !search::key_le((#[trigger] paths@[i]).tag.sort_key(vertex_id@), key),
        ensures
            at > 0 ==> search::key_le(paths@[at - 1].tag.sort_key(vertex_id@), key),
        decreases at,
    {
        assert(s.path_valid(v, paths@[at - 1]));
        if search::ordered(paths[at - 1].tag.key(vertex_id.as_slice()), key) {
            break;
        }
        at = at - 1;
    }
    proof {
        lemma_inserted(paths@, p, vertex_id@, at as int);
        let after = paths@.insert(at as int, p);
        assert forall|i: int| 0 <= i < after.len() implies s.path_valid(v, #[trigger] after[i]) by {
            if i < at {
                assert(after[i] == paths@[i]);
            } else if i > at {
                assert(after[i] == paths@[i - 1]);
            }
        }
    }
    paths.insert(at, p);
}

fn sort(paths: &Vec<Path>, vertex_id: &Vec<usize>, Ghost(s): Ghost<SearchView>, Ghost(v): Ghost<int>) -> (r: Vec<
    Path,
>)
    requires
        s.valid(),
        vertex_id@ == s.vertex_id,
        s.list_valid(v, paths@),
    ensures
        r@ == in_tag_order(paths@, vertex_id@),
        s.list_valid(v, r@),
{
    let mut r: Vec<Path> = Vec::new();
    assert(paths@.take(0) =~= Seq::<Path>::empty());
    let mut i: usize = 0;
    while i < paths.len()
        invariant
            s.valid(),
            vertex_id@ == s.vertex_id,
            s.list_valid(v, paths@),
            s.list_valid(v, r@),
            i <= paths@.len(),
            r@ == in_tag_order(paths@.take(i as int), vertex_id@),
        decreases paths@.len() - i,
    {
        assert(paths@.take(i + 1).drop_last() =~= paths@.take(i as int));
        assert(s.path_valid(v, paths@[i as int]));
        insert(&mut r, paths[i], vertex_id, Ghost(s), Ghost(v));
        i = i + 1;
    }
    assert(paths@.take(i as int) =~= paths@);
    r
}

impl<'g, 'a> Search<'g, 'a> {
    /// The clock's source port, and input ports with a delay.
    fn seed_arrivals(&self, v: usize, paths: &mut Vec<Path>)
        requires
            self.valid(),
            v < self.graph.vertices@.len(),
            self@.list_valid(v as int, old(paths)@),
        ensures
            final(paths)@ == self@.seeded(v as int, old(paths)@),
            self@.list_valid(v as int, final(paths)@),
    {
        let ghost s = self@;
        let ghost start = paths@;
        assert(s.g.vertices[v as int] == self.graph.vertices@[v as int]@);
        if self.graph.vertices[v].lib.is_some() {
            return;
        }
        let name: &str = self.graph.vertices[v].name.as_str();
        let mut c: usize = 0;
        if *name == *self.sdc.clock.source.as_str() {
            while c < 4
                invariant
                    self.valid(),
                    s == self@,
                    c <= 4,
                    s.list_valid(v as int, paths@),
                    s.clock_seeds(c as int, paths@) == s.clock_seeds(0, start),
                decreases 4 - c,
            {
                let (mm, rf): (usize, usize) = (c / 2, c % 2);
                let tag: Tag = Tag { rf, mm, clk_edge: Some(rf), is_clock: true, crpr: None };
                set_arrival(paths, tag, F32(0) + self.sdc.clock.edge_time(rf), Ghost(s), Ghost(v as int));
                c = c + 1;
            }
        } else {
            match self.input_delay.get(name) {
                Some(d) => {
                    let d: usize = *d;
                    proof {
                        assert(self.sdc.input_delays.len() <= usize::MAX);
                        search::lemma_delay_index(s.sdc.input_delays, name@);
                    }
                    while c < 4
                        invariant
                            self.valid(),
                            s == self@,
                            c <= 4,
                            d < self.sdc.input_delays@.len(),
                            s.list_valid(v as int, paths@),
                            s.input_seeds(d as int, c as int, paths@) == s.input_seeds(d as int, 0, start),
                        decreases 4 - c,
                    {
                        let (mm, rf): (usize, usize) = (c / 2, c % 2);
                        let tag: Tag = Tag { rf, mm, clk_edge: Some(0), is_clock: false, crpr: None };
                        assert(s.sdc.input_delays[d as int] == self.sdc.input_delays@[d as int]@);
                        let delay: F32 = self.sdc.input_delays[d].delay[rf][mm];
                        assert(delay == s.sdc.input_delays[d as int].delay[rf as int][mm as int]);
                        set_arrival(
                            paths,
                            tag,
                            self.sdc.clock.edge_time(0) + delay,
                            Ghost(s),
                            Ghost(v as int),
                        );
                        c = c + 1;
                    }
                },
                None => {},
            }
        }
    }

    /// One vertex's arrivals.
    fn arrivals_at(&self, v: usize) -> (r: Vec<Path>)
        requires
            self.valid(),
            self@.paths_valid(self.path_lists()),
            v < self.graph.vertices@.len(),
        ensures
            r@ == self@.arrivals_at(self.path_lists(), v as int),
            self@.list_valid(v as int, r@),
    {
        let ghost s = self@;
        assert(s.g.in_edges.len() == self.graph.in_edges@.len());
        assert(s.g.in_edges[v as int] == self.graph.in_edges@[v as int]@);
        let single: bool = self.graph.in_edges[v].len() == 1;
        let b: Bldr = self.visit_fanin_paths(v, single);
        let mut paths: Vec<Path> = if self.sdc.clock.propagated && !single && has_clocked(&b.paths) {
            self.prune_crpr_arrivals(&b, Ghost(v as int))
        } else {
            b.paths
        };
        self.seed_arrivals(v, &mut paths);
        sort(&paths, &self.vertex_id, Ghost(s), Ghost(v as int))
    }

    /// Every vertex in level order: the paths that reach it.
    pub fn find_arrivals(&mut self) -> (r: Result<(), String>)
        requires
            old(self).valid(),
            old(self)@.paths_valid(old(self).path_lists()),
        ensures
            final(self).valid(),
            final(self)@ == old(self)@,
            final(self).graph == old(self).graph,
            final(self).sdc == old(self).sdc,
            final(self)@.paths_valid(final(self).path_lists()),
            r is Ok ==> forall|v: int|
                0 <= v < final(self).path_lists().len() ==> one_per_tag(#[trigger] final(self).path_lists()[v])
                    && ordered_by_tag(final(self).path_lists()[v], final(self)@.vertex_id),
            match r {
                Ok(_) => topology::order_of(old(self)@.g) matches Some(order) && final(self).path_lists() == old(
                    self,
                )@.arrivals_along(order, 0, old(self).path_lists()),
                Err(e) => {
                    &&& topology::order_of(old(self)@.g) is None
                    &&& e@ == "the timing graph has a loop — not modelled"@
                    &&& final(self).path_lists() == old(self).path_lists()
                },
            },
    {
        let ghost s = self@;
        proof {
            lemma_arrivals_in_tag_order(s, self.path_lists());
        }
        let order: Vec<usize> = self.graph.topo_order()?;
        let ghost all = s.arrivals_along(order@, 0, self.path_lists());
        let mut i: usize = 0;
        while i < order.len()
            invariant
                self.valid(),
                s == self@,
                self.graph == old(self).graph,
                self.sdc == old(self).sdc,
                s.paths_valid(self.path_lists()),
                graph::all_below(order@, s.g.vertices.len()),
                i <= order@.len(),
                s.arrivals_along(order@, i as int, self.path_lists()) == all,
            decreases order@.len() - i,
        {
            let v: usize = order[i];
            let ghost before = self.path_lists();
            let list: Vec<Path> = self.arrivals_at(v);
            let ghost found = list@;
            self.paths.set(v, list);
            assert(self.path_lists() =~= before.update(v as int, found));
            i = i + 1;
        }
        Ok(())
    }
}

fn has_clocked(paths: &Vec<Path>) -> (r: bool)
    ensures
        r == any_clocked(paths@),
{
    let mut i: usize = 0;
    while i < paths.len()
        invariant
            i <= paths@.len(),
            forall|j: int| 0 <= j < i ==> (#[trigger] paths@[j]).tag.clk_edge is None,
        decreases paths@.len() - i,
    {
        if paths[i].tag.clk_edge.is_some() {
            return true;
        }
        i = i + 1;
    }
    false
}

/// No two paths have the same tag.
pub open spec fn one_per_tag(paths: Seq<Path>) -> bool {
    forall|i: int, j: int|
        0 <= i < j < paths.len() ==> !(#[trigger] paths[i]).tag.same((#[trigger] paths[j]).tag)
}

/// Paths stand in the order of their tags.
pub open spec fn ordered_by_tag(paths: Seq<Path>, vertex_id: Seq<usize>) -> bool {
    forall|i: int, j: int|
        0 <= i < j < paths.len() ==> search::key_le(
            (#[trigger] paths[i]).tag.sort_key(vertex_id),
            (#[trigger] paths[j]).tag.sort_key(vertex_id),
        )
}

/// A path of a list.
pub open spec fn listed(paths: Seq<Path>, p: Path) -> bool {
    exists|k: int| 0 <= k < paths.len() && #[trigger] paths[k] == p
}

proof fn lemma_put_distinct(paths: Seq<Path>, p: Path)
    requires
        one_per_tag(paths),
    ensures
        one_per_tag(put(paths, search::first(paths, Sought::Same(p.tag), 0), p)),
{
    search::lemma_first(paths, Sought::Same(p.tag), 0);
}

proof fn lemma_offer_arcs_distinct(s: SearchView, from_v: usize, from: Path, e: int, k: int, single: bool, b: Built)
    requires
        one_per_tag(b.paths),
    ensures
        one_per_tag(s.offer_arcs(from_v, from, e, k, single, b).paths),
    decreases s.arcs_from(e, from.tag.rf).len() - k,
{
    let arcs = s.arcs_from(e, from.tag.rf);
    if 0 <= k < arcs.len() {
        let next = match s.through(from_v, from, e, arcs[k]) {
            None => b,
            Some((tag, _, arrival)) => {
                let p = Path {
                    tag,
                    arrival,
                    required: F32(0),
                    prev: Some(Prev { vertex: from_v, tag: from.tag, edge: e as usize, arc: arcs[k].index }),
                };
                lemma_put_distinct(b.paths, p);
                b.offered(p, single)
            },
        };
        lemma_offer_arcs_distinct(s, from_v, from, e, k + 1, single, next);
    }
}

proof fn lemma_offer_paths_distinct(s: SearchView, from: Seq<Path>, e: int, j: int, single: bool, b: Built)
    requires
        one_per_tag(b.paths),
    ensures
        one_per_tag(s.offer_paths(from, e, j, single, b).paths),
    decreases from.len() - j,
{
    if 0 <= j < from.len() {
        lemma_offer_arcs_distinct(s, s.g.edges[e].from, from[j], e, 0, single, b);
        let next = s.offer_arcs(s.g.edges[e].from, from[j], e, 0, single, b);
        lemma_offer_paths_distinct(s, from, e, j + 1, single, next);
    }
}

proof fn lemma_offer_edges_distinct(
    s: SearchView,
    paths: Seq<Seq<Path>>,
    ins: Seq<usize>,
    i: int,
    single: bool,
    b: Built,
)
    requires
        one_per_tag(b.paths),
    ensures
        one_per_tag(s.offer_edges(paths, ins, i, single, b).paths),
    decreases i,
{
    if i > 0 {
        let e = ins[i - 1] as int;
        let from = paths[s.g.edges[e].from as int];
        lemma_offer_paths_distinct(s, from, e, 0, single, b);
        let next = if s.walks(e) {
            s.offer_paths(from, e, 0, single, b)
        } else {
            b
        };
        lemma_offer_edges_distinct(s, paths, ins, i - 1, single, next);
    }
}

proof fn lemma_kept_distinct(s: SearchView, paths: Seq<Seq<Path>>, winners: Seq<Path>, built: Seq<Path>)
    requires
        one_per_tag(built),
    ensures
        one_per_tag(s.kept(paths, winners, built)),
        forall|i: int|
            0 <= i < s.kept(paths, winners, built).len() ==> listed(
                built,
                #[trigger] s.kept(paths, winners, built)[i],
            ),
    decreases built.len(),
{
    if built.len() > 0 {
        let less = built.drop_last();
        assert forall|i: int, j: int| 0 <= i < j < less.len() implies !(#[trigger] less[i]).tag.same(
            (#[trigger] less[j]).tag,
        ) by {
            assert(!built[i].tag.same(built[j].tag));
        }
        lemma_kept_distinct(s, paths, winners, less);
        let (before, all) = (s.kept(paths, winners, less), s.kept(paths, winners, built));
        assert forall|i: int| 0 <= i < all.len() implies listed(built, #[trigger] all[i]) by {
            if i < before.len() {
                assert(listed(less, before[i]));
                let k = choose|k: int| 0 <= k < less.len() && #[trigger] less[k] == before[i];
                assert(built[k] == all[i]);
            } else {
                assert(built[built.len() - 1] == all[i]);
            }
        }
        assert forall|i: int, j: int| 0 <= i < j < all.len() implies !(#[trigger] all[i]).tag.same(
            (#[trigger] all[j]).tag,
        ) by {
            if j < before.len() {
                assert(!before[i].tag.same(before[j].tag));
            } else {
                assert(listed(less, before[i]));
                let k = choose|k: int| 0 <= k < less.len() && #[trigger] less[k] == before[i];
                assert(!built[k].tag.same(built[built.len() - 1].tag));
            }
        }
    }
}

proof fn lemma_seeds_distinct(s: SearchView, d: int, c: int, built: Seq<Path>)
    requires
        one_per_tag(built),
    ensures
        one_per_tag(s.clock_seeds(c, built)),
        one_per_tag(s.input_seeds(d, c, built)),
    decreases 4 - c,
{
    if 0 <= c < 4 {
        let (mm, rf) = ((c / 2) as usize, (c % 2) as usize);
        let clock = Tag { rf, mm, clk_edge: Some(rf), is_clock: true, crpr: None };
        let clock_time = F32(0) + s.sdc.clock.waveform[rf as int];
        lemma_put_distinct(built, Path { tag: clock, arrival: clock_time, required: F32(0), prev: None });
        lemma_seeds_distinct(s, d, c + 1, seeded_tag(built, clock, clock_time));
        let input = Tag { rf, mm, clk_edge: Some(0), is_clock: false, crpr: None };
        let input_time = s.sdc.clock.waveform[0] + s.sdc.input_delays[d].delay[rf as int][mm as int];
        lemma_put_distinct(built, Path { tag: input, arrival: input_time, required: F32(0), prev: None });
        lemma_seeds_distinct(s, d, c + 1, seeded_tag(built, input, input_time));
    }
}

proof fn lemma_inserted_ordered(paths: Seq<Path>, p: Path, vertex_id: Seq<usize>)
    requires
        ordered_by_tag(paths, vertex_id),
        one_per_tag(paths),
        forall|i: int| 0 <= i < paths.len() ==> !(#[trigger] paths[i]).tag.same(p.tag),
    ensures
        ordered_by_tag(inserted(paths, p, vertex_id), vertex_id),
        one_per_tag(inserted(paths, p, vertex_id)),
        inserted(paths, p, vertex_id).len() == paths.len() + 1,
        forall|i: int|
            0 <= i < inserted(paths, p, vertex_id).len() ==> {
                ||| #[trigger] inserted(paths, p, vertex_id)[i] == p
                ||| listed(paths, inserted(paths, p, vertex_id)[i])
            },
    decreases paths.len(),
{
    let all = inserted(paths, p, vertex_id);
    if paths.len() == 0 || search::key_le(paths.last().tag.sort_key(vertex_id), p.tag.sort_key(vertex_id)) {
        assert forall|i: int, j: int| 0 <= i < j < all.len() implies search::key_le(
            (#[trigger] all[i]).tag.sort_key(vertex_id),
            (#[trigger] all[j]).tag.sort_key(vertex_id),
        ) by {
            if j == paths.len() && i < paths.len() - 1 {
                assert(search::key_le(
                    paths[i].tag.sort_key(vertex_id),
                    paths[paths.len() - 1].tag.sort_key(vertex_id),
                ));
            }
        }
        assert forall|i: int| 0 <= i < all.len() implies {
            ||| #[trigger] all[i] == p
            ||| listed(paths, all[i])
        } by {
            if i < paths.len() {
                assert(paths[i] == all[i]);
            }
        }
    } else {
        let less = paths.drop_last();
        let last = paths[paths.len() - 1];
        let before = inserted(less, p, vertex_id);
        assert forall|i: int| 0 <= i < less.len() implies #[trigger] less[i] == paths[i] by {}
        lemma_inserted_ordered(less, p, vertex_id);
        assert forall|i: int| 0 <= i < before.len() implies !(#[trigger] before[i]).tag.same(last.tag)
            && search::key_le(before[i].tag.sort_key(vertex_id), last.tag.sort_key(vertex_id)) by {
            if before[i] != p {
                assert(listed(less, before[i]));
                let k = choose|k: int| 0 <= k < less.len() && #[trigger] less[k] == before[i];
                assert(paths[k] == before[i]);
            }
        }
        assert forall|i: int| 0 <= i < all.len() implies {
            ||| #[trigger] all[i] == p
            ||| listed(paths, all[i])
        } by {
            if i < before.len() {
                assert(all[i] == before[i]);
                if before[i] != p {
                    let k = choose|k: int| 0 <= k < less.len() && #[trigger] less[k] == before[i];
                    assert(paths[k] == all[i]);
                }
            } else {
                assert(paths[paths.len() - 1] == all[i]);
            }
        }
    }
}

proof fn lemma_in_tag_order(paths: Seq<Path>, vertex_id: Seq<usize>)
    requires
        one_per_tag(paths),
    ensures
        ordered_by_tag(in_tag_order(paths, vertex_id), vertex_id),
        one_per_tag(in_tag_order(paths, vertex_id)),
        in_tag_order(paths, vertex_id).len() == paths.len(),
        forall|i: int|
            0 <= i < in_tag_order(paths, vertex_id).len() ==> listed(
                paths,
                #[trigger] in_tag_order(paths, vertex_id)[i],
            ),
    decreases paths.len(),
{
    if paths.len() > 0 {
        let less = paths.drop_last();
        let last = paths[paths.len() - 1];
        assert forall|i: int| 0 <= i < less.len() implies #[trigger] less[i] == paths[i] by {}
        lemma_in_tag_order(less, vertex_id);
        let before = in_tag_order(less, vertex_id);
        assert forall|i: int| 0 <= i < before.len() implies !(#[trigger] before[i]).tag.same(last.tag) by {
            assert(listed(less, before[i]));
            let k = choose|k: int| 0 <= k < less.len() && #[trigger] less[k] == before[i];
            assert(!paths[k].tag.same(last.tag));
        }
        lemma_inserted_ordered(before, last, vertex_id);
        let all = in_tag_order(paths, vertex_id);
        assert forall|i: int| 0 <= i < all.len() implies listed(paths, #[trigger] all[i]) by {
            if all[i] == last {
                assert(paths[paths.len() - 1] == all[i]);
            } else {
                assert(listed(before, all[i]));
                let j = choose|j: int| 0 <= j < before.len() && #[trigger] before[j] == all[i];
                assert(listed(less, before[j]));
                let k = choose|k: int| 0 <= k < less.len() && #[trigger] less[k] == before[j];
                assert(paths[k] == all[i]);
            }
        }
    }
}

/// Whatever reaches it, a vertex holds one path per tag, in the order of the tags.
pub proof fn lemma_one_path_per_tag(s: SearchView, paths: Seq<Seq<Path>>, v: int)
    ensures
        one_per_tag(s.arrivals_at(paths, v)),
        ordered_by_tag(s.arrivals_at(paths, v), s.vertex_id),
{
    let ins = s.g.in_edges[v];
    lemma_offer_edges_distinct(s, paths, ins, ins.len() as int, ins.len() == 1, Built::none());
    let b = s.fanin(paths, v);
    lemma_kept_distinct(s, paths, b.winners, b.paths);
    let pruned = s.pruned(paths, v, b);
    let inputs = search::delay_index(s.sdc.input_delays);
    lemma_seeds_distinct(s, inputs[s.g.vertices[v].name] as int, 0, pruned);
    lemma_in_tag_order(s.seeded(v, pruned), s.vertex_id);
}

/// Every vertex of an order from the `i`th on ends with one path per tag, in the order of the tags.
proof fn lemma_visited_in_order(s: SearchView, order: Seq<usize>, i: int, paths: Seq<Seq<Path>>)
    requires
        0 <= i <= order.len(),
        graph::all_below(order, paths.len()),
        forall|j: int|
            0 <= j < i ==> one_per_tag(paths[(#[trigger] order[j]) as int]) && ordered_by_tag(
                paths[order[j] as int],
                s.vertex_id,
            ),
    ensures
        s.arrivals_along(order, i, paths).len() == paths.len(),
        forall|j: int|
            0 <= j < order.len() ==> one_per_tag(
                s.arrivals_along(order, i, paths)[(#[trigger] order[j]) as int],
            ) && ordered_by_tag(s.arrivals_along(order, i, paths)[order[j] as int], s.vertex_id),
    decreases order.len() - i,
{
    if i < order.len() {
        let v = order[i] as int;
        lemma_one_path_per_tag(s, paths, v);
        let next = paths.update(v, s.arrivals_at(paths, v));
        assert forall|j: int| 0 <= j < i + 1 implies one_per_tag(next[(#[trigger] order[j]) as int])
            && ordered_by_tag(next[order[j] as int], s.vertex_id) by {
            if order[j] != v {
                assert(j < i);
            }
        }
        lemma_visited_in_order(s, order, i + 1, next);
    }
}

/// After the arrivals are found every vertex holds one path per tag, in the order of the tags.
pub proof fn lemma_arrivals_in_tag_order(s: SearchView, paths: Seq<Seq<Path>>)
    requires
        s.g.valid(),
        paths.len() == s.g.vertices.len(),
    ensures
        topology::order_of(s.g) matches Some(order) ==> forall|v: int|
            0 <= v < paths.len() ==> one_per_tag(#[trigger] s.arrivals_along(order, 0, paths)[v])
                && ordered_by_tag(s.arrivals_along(order, 0, paths)[v], s.vertex_id),
{
    if let Some(order) = topology::order_of(s.g) {
        topology::lemma_order_is_topological(s.g);
        lemma_visited_in_order(s, order, 0, paths);
        let found = s.arrivals_along(order, 0, paths);
        assert forall|v: int| 0 <= v < paths.len() implies one_per_tag(#[trigger] found[v])
            && ordered_by_tag(found[v], s.vertex_id) by {
            topology::lemma_all_placed(order, paths.len(), v as usize);
            let j = choose|j: int| 0 <= j < order.len() && order[j] == v as usize;
            assert(order[j] as int == v);
        }
    }
}

/// Where vertices have distinct ids, two tags have equal keys exactly where they are the same.
pub proof fn lemma_keys_tell_tags_apart(s: SearchView, a: Tag, b: Tag)
    requires
        s.tag_valid(a),
        s.tag_valid(b),
        s.vertex_id.no_duplicates(),
        s.vertex_id.len() >= s.g.vertices.len(),
        forall|v: int| 0 <= v < s.vertex_id.len() ==> (#[trigger] s.vertex_id[v]) <= i64::MAX,
    ensures
        a.sort_key(s.vertex_id) == b.sort_key(s.vertex_id) <==> a.same(b),
        search::key_le(a.sort_key(s.vertex_id), b.sort_key(s.vertex_id)) || search::key_le(
            b.sort_key(s.vertex_id),
            a.sort_key(s.vertex_id),
        ),
{
}

} // verus!
