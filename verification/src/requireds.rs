//! The requireds and slacks of a search.

use vstd::prelude::*;
use crate::float32::F32;
use crate::fuzzy;
use crate::graph;
use crate::graph::EdgeKind;
use crate::levels;
use crate::liberty::{ArcSet, Role, MAX, MIN};
use crate::sdc;
use crate::search;
use crate::search::{ArcRef, CrprPath, Path, Prev, Search, SearchView, Sought, Tag, INF};
use crate::topology;

verus! {

/// A max path's required lowered to a fuzzily smaller value.
pub open spec fn lowered(req: Seq<F32>, i: int, value: F32) -> Seq<F32> {
    if fuzzy::below(value, req[i]) {
        req.update(i, value)
    } else {
        req
    }
}

/// Requireds before any is known: at the far end for each path's min/max.
pub open spec fn unconstrained(paths: Seq<Path>) -> Seq<F32> {
    Seq::new(
        paths.len(),
        |i: int|
            if paths[i].tag.mm == MAX {
                F32(INF)
            } else {
                -F32(INF)
            },
    )
}

/// The required of the path a tag goes to: of the same tag, else the first alike but for its CRPR
/// clock path.
pub open spec fn required_of(paths: Seq<Path>, tag: Tag) -> Option<F32> {
    match search::first(paths, Sought::Same(tag), 0) {
        Some(i) => Some(paths[i].required),
        None => match search::first(paths, Sought::Like(tag), 0) {
            Some(i) => Some(paths[i].required),
            None => None,
        },
    }
}

pub open spec fn with_required(paths: Seq<Path>, req: Seq<F32>) -> Seq<Path> {
    Seq::new(paths.len(), |i: int| Path { required: req[i], ..paths[i] })
}

impl SearchView {
    /// Path `i` of `from_v` back through the arcs of an edge from the `k`th on.
    pub open spec fn back_arcs(
        self,
        paths: Seq<Seq<Path>>,
        from_v: usize,
        i: int,
        e: int,
        k: int,
        req: Seq<F32>,
    ) -> Seq<F32>
        decreases self.arcs_from(e, paths[from_v as int][i].tag.rf).len() - k,
    {
        let from = paths[from_v as int][i];
        let arcs = self.arcs_from(e, from.tag.rf);
        if k < 0 || k >= arcs.len() {
            req
        } else {
            self.back_arcs(
                paths,
                from_v,
                i,
                e,
                k + 1,
                match self.through(from_v, from, e, arcs[k]) {
                    None => req,
                    Some((tag, delay, _)) => match required_of(paths[self.g.edges[e].to as int], tag) {
                        None => req,
                        Some(r) => lowered(req, i, r - delay),
                    },
                },
            )
        }
    }

    /// The max paths of `v` from the `i`th on, back through an edge.
    pub open spec fn back_paths(self, paths: Seq<Seq<Path>>, v: usize, i: int, e: int, req: Seq<F32>) -> Seq<F32>
        decreases paths[v as int].len() - i,
    {
        if i < 0 || i >= paths[v as int].len() {
            req
        } else {
            self.back_paths(
                paths,
                v,
                i + 1,
                e,
                if paths[v as int][i].tag.mm == MAX {
                    self.back_arcs(paths, v, i, e, 0, req)
                } else {
                    req
                },
            )
        }
    }

    /// The first `n` out-edges, newest first.
    pub open spec fn back_edges(
        self,
        paths: Seq<Seq<Path>>,
        v: usize,
        outs: Seq<usize>,
        n: int,
        req: Seq<F32>,
    ) -> Seq<F32>
        decreases n,
    {
        if n <= 0 {
            req
        } else {
            let e = outs[n - 1] as int;
            self.back_edges(
                paths,
                v,
                outs,
                n - 1,
                if self.walks(e) {
                    self.back_paths(paths, v, 0, e, req)
                } else {
                    req
                },
            )
        }
    }

    /// The path that a path's arrival came from: its vertex and its place there.
    pub open spec fn prev_path(self, paths: Seq<Seq<Path>>, v: int, i: int) -> Option<(int, int)> {
        match paths[v][i].prev {
            None => None,
            Some(prev) => match search::first(paths[prev.vertex as int], Sought::Same(prev.tag), 0) {
                None => None,
                Some(j) => Some((prev.vertex as int, j)),
            },
        }
    }

    /// There is a path `i` at vertex `v`.
    pub open spec fn has_path(self, paths: Seq<Seq<Path>>, v: int, i: int) -> bool {
        0 <= v < paths.len() && 0 <= i < paths[v].len()
    }

    /// Paths can be followed back: they came along edges of a graph without a loop.
    pub open spec fn can_back_up(self, paths: Seq<Seq<Path>>) -> bool {
        self.g.valid() && self.paths_valid(paths) && topology::order_of(self.g) is Some
    }

    /// The path before one is there, at a lower level.
    pub proof fn lemma_prev_path(self, paths: Seq<Seq<Path>>, v: int, i: int)
        requires
            self.can_back_up(paths),
            self.has_path(paths, v, i),
        ensures
            self.prev_path(paths, v, i) matches Some((u, j)) ==> self.has_path(paths, u, j)
                && levels::levels(self.g)[u] < levels::levels(self.g)[v],
    {
        assert(self.list_valid(v, paths[v]));
        assert(self.path_valid(v, paths[v][i]));
        if let Some(prev) = paths[v][i].prev {
            assert(self.g.edge_valid(self.g.edges[prev.edge as int]));
            search::lemma_first(paths[prev.vertex as int], Sought::Same(prev.tag), 0);
            levels::lemma_levels(self.g);
            assert(self.g.propagates(prev.edge as int));
        }
    }

    /// The CRPR credit of two clock paths: backed up, the deeper first, to their common pin, the
    /// smaller of their arrival spreads there; 0 where they have none.
    pub open spec fn credit(self, paths: Seq<Seq<Path>>, sv: int, si: int, tv: int, ti: int) -> F32
        decreases levels::levels(self.g)[sv] + levels::levels(self.g)[tv],
            when self.can_back_up(paths) && self.has_path(paths, sv, si) && self.has_path(paths, tv, ti)
    {
        let (sl, tl) = (levels::levels(self.g)[sv], levels::levels(self.g)[tv]);
        let source = if sl >= tl {
            self.prev_path(paths, sv, si)
        } else {
            Some((sv, si))
        };
        let target = if sl <= tl {
            self.prev_path(paths, tv, ti)
        } else {
            Some((tv, ti))
        };
        proof {
            self.lemma_prev_path(paths, sv, si);
            self.lemma_prev_path(paths, tv, ti);
        }
        if sv == tv {
            self.arrival_spread(paths, sv, si).smaller(self.arrival_spread(paths, tv, ti))
        } else {
            match (source, target) {
                (Some((su, sj)), Some((tu, tj))) => self.credit(paths, su, sj, tu, tj),
                _ => F32(0),
            }
        }
    }

    /// The CRPR credit of a data path that ends at a check against the clock path `j` of `tgt_v`; 0
    /// without a CRPR clock path (a path from an input), where that is of the same min/max, and
    /// where the clock is not propagated.
    pub open spec fn check_crpr(self, paths: Seq<Seq<Path>>, path: Path, tgt_v: int, j: int) -> F32 {
        match path.tag.crpr {
            None => F32(0),
            Some(c) => match search::first(paths[c.vertex as int], Sought::Clock(c), 0) {
                None => F32(0),
                Some(i) => if paths[c.vertex as int][i].tag.mm == paths[tgt_v][j].tag.mm
                    || !self.sdc.clock.propagated {
                    F32(0)
                } else {
                    self.credit(paths, c.vertex as int, i, tgt_v, j)
                },
            },
        }
    }

    /// The required time of a setup check with this margin, for a path launched at edge `src`, at
    /// the clock path `j` of `tgt_v`.
    pub open spec fn setup_required(
        self,
        paths: Seq<Seq<Path>>,
        path: Path,
        src: usize,
        tgt_v: int,
        j: int,
        margin: F32,
    ) -> F32 {
        let tgt = paths[tgt_v][j];
        let edge = tgt.tag.clk_edge->0 as int;
        let latency = (tgt.arrival - self.sdc.clock.waveform[edge]) - F32(0);
        let arrival = (F32(0) + latency) + self.sdc.clock.setup_required(src as int, edge);
        (arrival - (margin + F32(0))) + self.check_crpr(paths, path, tgt_v, j)
    }

    /// The clock paths from the `j`th on that capture at an arc of check `e`: min paths of the
    /// arc's from transition.
    pub open spec fn end_targets(
        self,
        paths: Seq<Seq<Path>>,
        v: int,
        i: int,
        src: usize,
        e: int,
        k: int,
        j: int,
        req: Seq<F32>,
    ) -> Seq<F32>
        decreases paths[self.g.edges[e].from as int].len() - j,
    {
        let tgt_v = self.g.edges[e].from as int;
        if j < 0 || j >= paths[tgt_v].len() {
            req
        } else {
            let tag = paths[tgt_v][j].tag;
            let captures = tag.mm == MIN && tag.rf == self.g.arc_set(e).arcs[k].from_rf && tag.is_clock;
            self.end_targets(
                paths,
                v,
                i,
                src,
                e,
                k,
                j + 1,
                if captures {
                    lowered(
                        req,
                        i,
                        self.setup_required(
                            paths,
                            paths[v][i],
                            src,
                            tgt_v,
                            j,
                            self.arc_delay(e, k, MAX as int),
                        ),
                    )
                } else {
                    req
                },
            )
        }
    }

    /// The arcs of check `e` from the `k`th on to the path's transition.
    pub open spec fn end_arcs(
        self,
        paths: Seq<Seq<Path>>,
        v: int,
        i: int,
        src: usize,
        e: int,
        k: int,
        req: Seq<F32>,
    ) -> Seq<F32>
        decreases self.g.arc_set(e).arcs.len() - k,
    {
        if k < 0 || k >= self.g.arc_set(e).arcs.len() {
            req
        } else {
            self.end_arcs(
                paths,
                v,
                i,
                src,
                e,
                k + 1,
                if self.g.arc_set(e).arcs[k].to_rf == paths[v][i].tag.rf {
                    self.end_targets(paths, v, i, src, e, k, 0, req)
                } else {
                    req
                },
            )
        }
    }

    /// The setup checks among the first `n` in-edges, newest first.
    pub open spec fn end_checks(
        self,
        paths: Seq<Seq<Path>>,
        v: int,
        i: int,
        src: usize,
        n: int,
        req: Seq<F32>,
    ) -> Seq<F32>
        decreases n,
    {
        if n <= 0 {
            req
        } else {
            let e = self.g.in_edges[v][n - 1] as int;
            self.end_checks(
                paths,
                v,
                i,
                src,
                n - 1,
                if self.g.role(e) == Some(Role::Setup) {
                    self.end_arcs(paths, v, i, src, e, 0, req)
                } else {
                    req
                },
            )
        }
    }

    /// The output delay of a port.
    pub open spec fn output_delay(self, v: int) -> Option<int> {
        let x = self.g.vertices[v];
        let outputs = search::delay_index(self.sdc.output_delays);
        if x.lib is None && outputs.contains_key(x.name) {
            Some(outputs[x.name] as int)
        } else {
            None
        }
    }

    /// The end of path `i`, launched at edge `src`: an output delay end if the port has one, else a
    /// setup check end.
    pub open spec fn path_end(self, paths: Seq<Seq<Path>>, v: int, i: int, src: usize, req: Seq<F32>) -> Seq<F32> {
        match self.output_delay(v) {
            Some(d) => {
                let time = self.sdc.clock.setup_required(src as int, 0);
                let margin = self.sdc.output_delays[d].delay[paths[v][i].tag.rf as int][MAX as int];
                lowered(req, i, (time + (F32(0) + F32(0))) - margin)
            },
            None => self.end_checks(paths, v, i, src, self.g.in_edges[v].len() as int, req),
        }
    }

    /// The ends of the clocked max paths from the `i`th on.
    pub open spec fn path_ends(self, paths: Seq<Seq<Path>>, v: int, i: int, req: Seq<F32>) -> Seq<F32>
        decreases paths[v].len() - i,
    {
        if i < 0 || i >= paths[v].len() {
            req
        } else {
            let tag = paths[v][i].tag;
            self.path_ends(
                paths,
                v,
                i + 1,
                if tag.mm == MAX && tag.clk_edge is Some {
                    self.path_end(paths, v, i, tag.clk_edge->0, req)
                } else {
                    req
                },
            )
        }
    }

    /// The requireds of a vertex's paths: from the fanout, and from the endpoint's path ends.
    pub open spec fn requireds_at(self, paths: Seq<Seq<Path>>, v: int) -> Seq<F32> {
        let outs = self.g.out_edges[v];
        let back = self.back_edges(paths, v as usize, outs, outs.len() as int, unconstrained(paths[v]));
        self.path_ends(paths, v, 0, back)
    }

    /// The first `n` vertices of an order, from the last down to the first.
    pub open spec fn requireds_along(self, order: Seq<usize>, n: int, paths: Seq<Seq<Path>>) -> Seq<Seq<Path>>
        decreases n,
    {
        if n <= 0 {
            paths
        } else {
            let v = order[n - 1] as int;
            self.requireds_along(
                order,
                n - 1,
                paths.update(v, with_required(paths[v], self.requireds_at(paths, v))),
            )
        }
    }
}

/// The fuzzily least slack of the first `n` paths that are max paths.
pub open spec fn least_slack(paths: Seq<Path>, n: int) -> F32
    decreases n,
{
    if n <= 0 {
        F32(INF)
    } else {
        let least = least_slack(paths, n - 1);
        let p = paths[n - 1];
        let slack = p.required - p.arrival;
        if p.tag.mm == MAX && fuzzy::below(slack, least) {
            slack
        } else {
            least
        }
    }
}

/// The slack of a vertex: the fuzzily least `required - arrival` over its max paths, in tag order.
pub open spec fn slack_at(paths: Seq<Seq<Path>>, v: int) -> F32 {
    least_slack(paths[v], paths[v].len() as int)
}

/// The fuzzily least slack of the first `n` loads.
pub open spec fn least_load(paths: Seq<Seq<Path>>, loads: Seq<usize>, n: int) -> F32
    decreases n,
{
    if n <= 0 {
        F32(INF)
    } else {
        let least = least_load(paths, loads, n - 1);
        let slack = slack_at(paths, loads[n - 1] as int);
        if fuzzy::below(slack, least) {
            slack
        } else {
            least
        }
    }
}

/// A max path's required: the fuzzily smaller.
fn required_set(req: &mut Vec<F32>, i: usize, value: F32)
    requires
        i < old(req)@.len(),
    ensures
        final(req)@ == lowered(old(req)@, i as int, value),
        final(req)@.len() == old(req)@.len(),
{
    if fuzzy::less(value, req[i]) {
        req.set(i, value);
    }
}

fn find_required(paths: &Vec<Path>, tag: &Tag) -> (r: Option<F32>)
    ensures
        r == required_of(paths@, *tag),
{
    match search::find(paths, &Sought::Same(*tag)) {
        Some(i) => Some(paths[i].required),
        None => match search::find(paths, &Sought::Like(*tag)) {
            Some(i) => Some(paths[i].required),
            None => None,
        },
    }
}

impl<'g, 'a> Search<'g, 'a> {
    fn back_arcs(&self, v: usize, i: usize, e: usize, req: &mut Vec<F32>)
        requires
            self.valid(),
            self@.paths_valid(self.path_lists()),
            self@.has_path(self.path_lists(), v as int, i as int),
            e < self.graph.edges@.len(),
            i < old(req)@.len(),
        ensures
            final(req)@ == self@.back_arcs(self.path_lists(), v, i as int, e as int, 0, old(req)@),
            final(req)@.len() == old(req)@.len(),
    {
        let ghost s = self@;
        let ghost lists = self.path_lists();
        let ghost start = req@;
        assert(s.g.edge_valid(s.g.edges[e as int]));
        assert(lists[v as int] == self.paths@[v as int]@);
        assert(s.list_valid(v as int, lists[v as int]));
        assert(s.path_valid(v as int, lists[v as int][i as int]));
        let from: Path = self.paths[v][i];
        let to_v: usize = self.graph.edges[e].to;
        assert(lists[to_v as int] == self.paths@[to_v as int]@);
        let arcs: Vec<ArcRef> = self.arcs_from(e, from.tag.rf);
        let mut k: usize = 0;
        while k < arcs.len()
            invariant
                self.valid(),
                s == self@,
                lists == self.path_lists(),
                v < self.graph.vertices@.len(),
                e < self.graph.edges@.len(),
                to_v == self.graph.edges@[e as int].to,
                to_v < self.paths@.len(),
                lists[to_v as int] == self.paths@[to_v as int]@,
                from == lists[v as int][i as int],
                s.tag_valid(from.tag),
                arcs@ == s.arcs_from(e as int, from.tag.rf),
                forall|x: int|
                    0 <= x < arcs@.len() ==> (#[trigger] arcs@[x]).index < s.times.delay[e as int].len()
                        && arcs@[x].to_rf < 2,
                k <= arcs@.len(),
                i < req@.len(),
                req@.len() == start.len(),
                s.back_arcs(lists, v, i as int, e as int, k as int, req@) == s.back_arcs(
                    lists,
                    v,
                    i as int,
                    e as int,
                    0,
                    start,
                ),
            decreases arcs@.len() - k,
        {
            let arc: ArcRef = arcs[k];
            assert(arcs@[k as int].index < s.times.delay[e as int].len());
            match self.visit_from_path(v, &from, e, &arc) {
                Some((tag, delay, _)) => {
                    match find_required(&self.paths[to_v], &tag) {
                        Some(r) => {
                            required_set(req, i, r - delay);
                        },
                        None => {},
                    }
                },
                None => {},
            }
            k = k + 1;
        }
    }

    fn back_paths(&self, v: usize, e: usize, req: &mut Vec<F32>)
        requires
            self.valid(),
            self@.paths_valid(self.path_lists()),
            v < self.graph.vertices@.len(),
            e < self.graph.edges@.len(),
            old(req)@.len() == self.path_lists()[v as int].len(),
        ensures
            final(req)@ == self@.back_paths(self.path_lists(), v, 0, e as int, old(req)@),
            final(req)@.len() == old(req)@.len(),
    {
        let ghost s = self@;
        let ghost lists = self.path_lists();
        let ghost start = req@;
        assert(lists[v as int] == self.paths@[v as int]@);
        let mut i: usize = 0;
        while i < self.paths[v].len()
            invariant
                self.valid(),
                s == self@,
                lists == self.path_lists(),
                s.paths_valid(lists),
                v < self.graph.vertices@.len(),
                v < self.paths@.len(),
                e < self.graph.edges@.len(),
                lists[v as int] == self.paths@[v as int]@,
                i <= lists[v as int].len(),
                req@.len() == lists[v as int].len(),
                s.back_paths(lists, v, i as int, e as int, req@) == s.back_paths(lists, v, 0, e as int, start),
            decreases lists[v as int].len() - i,
        {
            if self.paths[v][i].tag.mm == MAX {
                self.back_arcs(v, i, e, req);
            }
            i = i + 1;
        }
    }

    /// Requireds back from the fanout (max paths).
    fn visit_fanout_paths(&self, v: usize, req: &mut Vec<F32>)
        requires
            self.valid(),
            self@.paths_valid(self.path_lists()),
            v < self.graph.vertices@.len(),
            old(req)@.len() == self.path_lists()[v as int].len(),
        ensures
            final(req)@ == self@.back_edges(
                self.path_lists(),
                v,
                self@.g.out_edges[v as int],
                self@.g.out_edges[v as int].len() as int,
                old(req)@,
            ),
            final(req)@.len() == old(req)@.len(),
    {
        let ghost s = self@;
        let ghost lists = self.path_lists();
        let ghost start = req@;
        let ghost outs = s.g.out_edges[v as int];
        proof {
            graph::lemma_edges_at(s.g.edges, v as int, false);
            assert(outs == graph::edges_at(s.g.edges, v as int, false));
            assert(s.g.out_edges.len() == self.graph.out_edges@.len());
        }
        let list: &Vec<usize> = &self.graph.out_edges[v];
        assert(list@ == outs);
        let mut n: usize = list.len();
        while n > 0
            invariant
                self.valid(),
                s == self@,
                lists == self.path_lists(),
                s.paths_valid(lists),
                v < self.graph.vertices@.len(),
                list@ == outs,
                graph::all_below(outs, s.g.edges.len()),
                n <= outs.len(),
                req@.len() == lists[v as int].len(),
                s.back_edges(lists, v, outs, n as int, req@) == s.back_edges(
                    lists,
                    v,
                    outs,
                    outs.len() as int,
                    start,
                ),
            decreases n,
        {
            n = n - 1;
            let e: usize = list[n];
            assert(outs[n as int] < s.g.edges.len());
            if self.walks(e) {
                self.back_paths(v, e, req);
            }
        }
    }

    /// The fanin path the arrival came from.
    fn prev_path(&self, v: usize, i: usize) -> (r: Option<(usize, usize)>)
        requires
            self.valid(),
            self@.can_back_up(self.path_lists()),
            self@.has_path(self.path_lists(), v as int, i as int),
        ensures
            match r {
                Some((u, j)) => self@.prev_path(self.path_lists(), v as int, i as int) == Some(
                    (u as int, j as int),
                ) && self@.has_path(self.path_lists(), u as int, j as int) && levels::levels(self@.g)[u as int]
                    < levels::levels(self@.g)[v as int],
                None => self@.prev_path(self.path_lists(), v as int, i as int) is None,
            },
    {
        let ghost lists = self.path_lists();
        proof {
            self@.lemma_prev_path(lists, v as int, i as int);
            assert(lists[v as int] == self.paths@[v as int]@);
            assert(self@.list_valid(v as int, lists[v as int]));
            assert(self@.path_valid(v as int, lists[v as int][i as int]));
        }
        let prev: Prev = self.paths[v][i].prev?;
        assert(self@.g.edge_valid(self@.g.edges[prev.edge as int]));
        assert(lists[prev.vertex as int] == self.paths@[prev.vertex as int]@);
        match search::find(&self.paths[prev.vertex], &Sought::Same(prev.tag)) {
            Some(j) => Some((prev.vertex, j)),
            None => None,
        }
    }

    fn credit(&self, source: (usize, usize), target: (usize, usize)) -> (r: F32)
        requires
            self.valid(),
            self@.can_back_up(self.path_lists()),
            self@.has_path(self.path_lists(), source.0 as int, source.1 as int),
            self@.has_path(self.path_lists(), target.0 as int, target.1 as int),
        ensures
            r == self@.credit(
                self.path_lists(),
                source.0 as int,
                source.1 as int,
                target.0 as int,
                target.1 as int,
            ),
    {
        let ghost s = self@;
        let ghost lists = self.path_lists();
        let ghost level = levels::levels(s.g);
        let ghost all = s.credit(
            lists,
            source.0 as int,
            source.1 as int,
            target.0 as int,
            target.1 as int,
        );
        proof {
            levels::lemma_levels(s.g);
            assert(level.len() == self.level@.len());
        }
        let (mut sv, mut si): (usize, usize) = source;
        let (mut tv, mut ti): (usize, usize) = target;
        while sv != tv
            invariant
                self.valid(),
                s == self@,
                lists == self.path_lists(),
                s.can_back_up(lists),
                level == levels::levels(s.g),
                level.len() == self.level@.len(),
                level.len() == lists.len(),
                s.has_path(lists, sv as int, si as int),
                s.has_path(lists, tv as int, ti as int),
                s.credit(lists, sv as int, si as int, tv as int, ti as int) == all,
                all == s.credit(
                    lists,
                    source.0 as int,
                    source.1 as int,
                    target.0 as int,
                    target.1 as int,
                ),
            decreases level[sv as int] + level[tv as int],
        {
            assert(levels::level_views(self.level@)[sv as int] == self.level@[sv as int]);
            assert(levels::level_views(self.level@)[tv as int] == self.level@[tv as int]);
            let (sl, tl): (usize, usize) = (self.level[sv], self.level[tv]);
            if sl >= tl {
                match self.prev_path(sv, si) {
                    Some((v, i)) => {
                        sv = v;
                        si = i;
                    },
                    None => {
                        return F32(0);
                    },
                }
            }
            if sl <= tl {
                match self.prev_path(tv, ti) {
                    Some((v, i)) => {
                        tv = v;
                        ti = i;
                    },
                    None => {
                        return F32(0);
                    },
                }
            }
        }
        assert(lists[sv as int] == self.paths@[sv as int]@);
        assert(lists[tv as int] == self.paths@[tv as int]@);
        self.crpr_arrival_diff(sv, si).min(self.crpr_arrival_diff(tv, ti))
    }
}

impl<'g, 'a> Search<'g, 'a> {
    /// The check CRPR for a data path ending at a check against the clock path `j` of `tgt_v`.
    fn check_crpr(&self, path: &Path, tgt_v: usize, j: usize) -> (r: F32)
        requires
            self.valid(),
            self@.can_back_up(self.path_lists()),
            self@.tag_valid(path.tag),
            self@.has_path(self.path_lists(), tgt_v as int, j as int),
        ensures
            r == self@.check_crpr(self.path_lists(), *path, tgt_v as int, j as int),
    {
        let ghost lists = self.path_lists();
        let c: CrprPath = match path.tag.crpr {
            Some(c) => c,
            None => {
                return F32(0);
            },
        };
        assert(lists[c.vertex as int] == self.paths@[c.vertex as int]@);
        assert(lists[tgt_v as int] == self.paths@[tgt_v as int]@);
        match search::find(&self.paths[c.vertex], &Sought::Clock(c)) {
            Some(i) => {
                if self.paths[c.vertex][i].tag.mm == self.paths[tgt_v][j].tag.mm || !self.sdc.clock.propagated {
                    F32(0)
                } else {
                    self.credit((c.vertex, i), (tgt_v, j))
                }
            },
            None => F32(0),
        }
    }

    fn setup_required(&self, path: &Path, src: usize, tgt_v: usize, j: usize, margin: F32) -> (r: F32)
        requires
            self.valid(),
            self@.can_back_up(self.path_lists()),
            self@.tag_valid(path.tag),
            self@.has_path(self.path_lists(), tgt_v as int, j as int),
            self.path_lists()[tgt_v as int][j as int].tag.is_clock,
            src < 2,
        ensures
            r == self@.setup_required(self.path_lists(), *path, src, tgt_v as int, j as int, margin),
    {
        let ghost lists = self.path_lists();
        assert(lists[tgt_v as int] == self.paths@[tgt_v as int]@);
        assert(self@.list_valid(tgt_v as int, lists[tgt_v as int]));
        assert(self@.path_valid(tgt_v as int, lists[tgt_v as int][j as int]));
        let tgt: Path = self.paths[tgt_v][j];
        let edge: usize = match tgt.tag.clk_edge {
            Some(edge) => edge,
            None => 0,
        };
        let latency: F32 = (tgt.arrival - self.sdc.clock.edge_time(edge)) - F32(0);
        let arrival: F32 = (F32(0) + latency) + sdc::setup_required_time(&self.sdc.clock, src, edge);
        (arrival - (margin + F32(0))) + self.check_crpr(path, tgt_v, j)
    }

    fn end_targets(&self, v: usize, i: usize, src: usize, e: usize, k: usize, from_rf: usize, req: &mut Vec<F32>)
        requires
            self.valid(),
            self@.can_back_up(self.path_lists()),
            self@.has_path(self.path_lists(), v as int, i as int),
            src < 2,
            e < self.graph.edges@.len(),
            self.graph.edges@[e as int].kind is Gate,
            k < self@.g.arc_set(e as int).arcs.len(),
            from_rf == self@.g.arc_set(e as int).arcs[k as int].from_rf,
            i < old(req)@.len(),
        ensures
            final(req)@ == self@.end_targets(
                self.path_lists(),
                v as int,
                i as int,
                src,
                e as int,
                k as int,
                0,
                old(req)@,
            ),
            final(req)@.len() == old(req)@.len(),
    {
        let ghost s = self@;
        let ghost lists = self.path_lists();
        let ghost start = req@;
        assert(s.g.edge_valid(s.g.edges[e as int]));
        let tgt_v: usize = self.graph.edges[e].from;
        assert(lists[tgt_v as int] == self.paths@[tgt_v as int]@);
        assert(lists[v as int] == self.paths@[v as int]@);
        assert(s.list_valid(v as int, lists[v as int]));
        assert(s.path_valid(v as int, lists[v as int][i as int]));
        let path: Path = self.paths[v][i];
        let margin: F32 = self.arc_delay(e, k, MAX);
        let mut j: usize = 0;
        while j < self.paths[tgt_v].len()
            invariant
                self.valid(),
                s == self@,
                lists == self.path_lists(),
                s.can_back_up(lists),
                path == lists[v as int][i as int],
                s.tag_valid(path.tag),
                src < 2,
                tgt_v == s.g.edges[e as int].from,
                tgt_v < self.paths@.len(),
                lists[tgt_v as int] == self.paths@[tgt_v as int]@,
                from_rf == s.g.arc_set(e as int).arcs[k as int].from_rf,
                margin == s.arc_delay(e as int, k as int, MAX as int),
                j <= lists[tgt_v as int].len(),
                i < req@.len(),
                req@.len() == start.len(),
                s.end_targets(lists, v as int, i as int, src, e as int, k as int, j as int, req@)
                    == s.end_targets(lists, v as int, i as int, src, e as int, k as int, 0, start),
            decreases lists[tgt_v as int].len() - j,
        {
            let tag: Tag = self.paths[tgt_v][j].tag;
            if tag.mm == MIN && tag.rf == from_rf && tag.is_clock {
                let required: F32 = self.setup_required(&path, src, tgt_v, j, margin);
                required_set(req, i, required);
            }
            j = j + 1;
        }
    }

    fn end_arcs(&self, v: usize, i: usize, src: usize, e: usize, set: &'a ArcSet, req: &mut Vec<F32>)
        requires
            self.valid(),
            self@.can_back_up(self.path_lists()),
            self@.has_path(self.path_lists(), v as int, i as int),
            src < 2,
            e < self.graph.edges@.len(),
            self.graph.edges@[e as int].kind is Gate,
            set@ == self@.g.arc_set(e as int),
            i < old(req)@.len(),
        ensures
            final(req)@ == self@.end_arcs(
                self.path_lists(),
                v as int,
                i as int,
                src,
                e as int,
                0,
                old(req)@,
            ),
            final(req)@.len() == old(req)@.len(),
    {
        let ghost s = self@;
        let ghost lists = self.path_lists();
        let ghost start = req@;
        assert(lists[v as int] == self.paths@[v as int]@);
        let rf: usize = self.paths[v][i].tag.rf;
        let mut k: usize = 0;
        while k < set.arcs.len()
            invariant
                self.valid(),
                s == self@,
                lists == self.path_lists(),
                s.can_back_up(lists),
                s.has_path(lists, v as int, i as int),
                rf == lists[v as int][i as int].tag.rf,
                src < 2,
                e < self.graph.edges@.len(),
                self.graph.edges@[e as int].kind is Gate,
                set@ == s.g.arc_set(e as int),
                k <= set.arcs@.len(),
                i < req@.len(),
                req@.len() == start.len(),
                s.end_arcs(lists, v as int, i as int, src, e as int, k as int, req@) == s.end_arcs(
                    lists,
                    v as int,
                    i as int,
                    src,
                    e as int,
                    0,
                    start,
                ),
            decreases set.arcs@.len() - k,
        {
            assert(s.g.arc_set(e as int).arcs[k as int] == set.arcs@[k as int]@);
            if set.arcs[k].to_rf == rf {
                self.end_targets(v, i, src, e, k, set.arcs[k].from_rf, req);
            }
            k = k + 1;
        }
    }

    fn end_checks(&self, v: usize, i: usize, src: usize, req: &mut Vec<F32>)
        requires
            self.valid(),
            self@.can_back_up(self.path_lists()),
            self@.has_path(self.path_lists(), v as int, i as int),
            src < 2,
            i < old(req)@.len(),
        ensures
            final(req)@ == self@.end_checks(
                self.path_lists(),
                v as int,
                i as int,
                src,
                self@.g.in_edges[v as int].len() as int,
                old(req)@,
            ),
            final(req)@.len() == old(req)@.len(),
    {
        let ghost s = self@;
        let ghost lists = self.path_lists();
        let ghost start = req@;
        let ghost ins = s.g.in_edges[v as int];
        proof {
            graph::lemma_edges_at(s.g.edges, v as int, true);
            assert(ins == graph::edges_at(s.g.edges, v as int, true));
            assert(s.g.in_edges.len() == self.graph.in_edges@.len());
        }
        let list: &Vec<usize> = &self.graph.in_edges[v];
        assert(list@ == ins);
        let mut n: usize = list.len();
        while n > 0
            invariant
                self.valid(),
                s == self@,
                lists == self.path_lists(),
                s.can_back_up(lists),
                s.has_path(lists, v as int, i as int),
                src < 2,
                list@ == ins,
                ins == s.g.in_edges[v as int],
                graph::all_below(ins, s.g.edges.len()),
                n <= ins.len(),
                i < req@.len(),
                req@.len() == start.len(),
                s.end_checks(lists, v as int, i as int, src, n as int, req@) == s.end_checks(
                    lists,
                    v as int,
                    i as int,
                    src,
                    ins.len() as int,
                    start,
                ),
            decreases n,
        {
            n = n - 1;
            let e: usize = list[n];
            assert(ins[n as int] < s.g.edges.len());
            match self.graph.edges[e].kind {
                EdgeKind::Gate { set } => {
                    let found: &'a ArcSet = self.graph.arc_set(e, set);
                    if matches!(found.role, Role::Setup) {
                        self.end_arcs(v, i, src, e, found, req);
                    }
                },
                EdgeKind::Wire => {},
            }
        }
    }

    fn find_output_delay(&self, v: usize) -> (r: Option<usize>)
        requires
            self.valid(),
            v < self.graph.vertices@.len(),
        ensures
            match r {
                Some(d) => self@.output_delay(v as int) == Some(d as int) && d < self.sdc.output_delays@.len(),
                None => self@.output_delay(v as int) is None,
            },
    {
        assert(self@.g.vertices[v as int] == self.graph.vertices@[v as int]@);
        if self.graph.vertices[v].lib.is_some() {
            return None;
        }
        let name: &str = self.graph.vertices[v].name.as_str();
        proof {
            assert(self.sdc.output_delays.len() <= usize::MAX);
            search::lemma_delay_index(self@.sdc.output_delays, name@);
        }
        match self.output_delay.get(name) {
            Some(d) => Some(*d),
            None => None,
        }
    }

    /// The endpoint's path ends, for max paths: an output delay end if the port has one, else a
    /// setup check end.
    fn visit_path_ends(&self, v: usize, req: &mut Vec<F32>)
        requires
            self.valid(),
            self@.can_back_up(self.path_lists()),
            v < self.graph.vertices@.len(),
            old(req)@.len() == self.path_lists()[v as int].len(),
        ensures
            final(req)@ == self@.path_ends(self.path_lists(), v as int, 0, old(req)@),
            final(req)@.len() == old(req)@.len(),
    {
        let ghost s = self@;
        let ghost lists = self.path_lists();
        let ghost start = req@;
        assert(lists[v as int] == self.paths@[v as int]@);
        assert(s.list_valid(v as int, lists[v as int]));
        let output: Option<usize> = self.find_output_delay(v);
        let mut i: usize = 0;
        while i < self.paths[v].len()
            invariant
                self.valid(),
                s == self@,
                lists == self.path_lists(),
                s.can_back_up(lists),
                v < self.paths@.len(),
                lists[v as int] == self.paths@[v as int]@,
                s.list_valid(v as int, lists[v as int]),
                match output {
                    Some(d) => s.output_delay(v as int) == Some(d as int) && d < self.sdc.output_delays@.len(),
                    None => s.output_delay(v as int) is None,
                },
                i <= lists[v as int].len(),
                req@.len() == lists[v as int].len(),
                s.path_ends(lists, v as int, i as int, req@) == s.path_ends(lists, v as int, 0, start),
            decreases lists[v as int].len() - i,
        {
            let tag: Tag = self.paths[v][i].tag;
            assert(s.path_valid(v as int, lists[v as int][i as int]));
            if tag.mm == MAX {
                match tag.clk_edge {
                    Some(src) => {
                        match output {
                            Some(d) => {
                                let time: F32 = sdc::setup_required_time(&self.sdc.clock, src, 0);
                                assert(s.sdc.output_delays[d as int] == self.sdc.output_delays@[d as int]@);
                                let margin: F32 = self.sdc.output_delays[d].delay[tag.rf][MAX];
                                assert(margin == s.sdc.output_delays[d as int].delay[tag.rf as int][MAX as int]);
                                required_set(req, i, (time + (F32(0) + F32(0))) - margin);
                            },
                            None => {
                                self.end_checks(v, i, src, req);
                            },
                        }
                    },
                    None => {},
                }
            }
            i = i + 1;
        }
    }

    /// Requireds from the fanout, and the endpoint's path ends.
    fn requireds_at(&self, v: usize) -> (r: Vec<F32>)
        requires
            self.valid(),
            self@.can_back_up(self.path_lists()),
            v < self.graph.vertices@.len(),
        ensures
            r@ == self@.requireds_at(self.path_lists(), v as int),
            r@.len() == self.path_lists()[v as int].len(),
    {
        let ghost lists = self.path_lists();
        assert(lists[v as int] == self.paths@[v as int]@);
        let mut req: Vec<F32> = Vec::new();
        let ghost want = unconstrained(lists[v as int]);
        let mut i: usize = 0;
        while i < self.paths[v].len()
            invariant
                v < self.paths@.len(),
                lists[v as int] == self.paths@[v as int]@,
                want == unconstrained(lists[v as int]),
                i <= lists[v as int].len(),
                req@ == want.take(i as int),
            decreases lists[v as int].len() - i,
        {
            req.push(
                if self.paths[v][i].tag.mm == MAX {
                    F32(INF)
                } else {
                    F32(INF).negate()
                },
            );
            i = i + 1;
            assert(req@ =~= want.take(i as int));
        }
        assert(req@ =~= want);
        self.visit_fanout_paths(v, &mut req);
        self.visit_path_ends(v, &mut req);
        req
    }

    /// A vertex's paths with their requireds.
    fn require(&mut self, v: usize, req: &Vec<F32>)
        requires
            old(self).valid(),
            old(self)@.paths_valid(old(self).path_lists()),
            v < old(self).graph.vertices@.len(),
            req@.len() == old(self).path_lists()[v as int].len(),
        ensures
            final(self).valid(),
            final(self)@ == old(self)@,
            final(self).graph == old(self).graph,
            final(self).sdc == old(self).sdc,
            final(self)@.paths_valid(final(self).path_lists()),
            final(self).path_lists() == old(self).path_lists().update(
                v as int,
                with_required(old(self).path_lists()[v as int], req@),
            ),
    {
        let ghost s = self@;
        let ghost before = self.path_lists();
        let ghost want = with_required(before[v as int], req@);
        assert(before[v as int] == self.paths@[v as int]@);
        assert(s.list_valid(v as int, before[v as int]));
        let mut list: Vec<Path> = Vec::new();
        let mut i: usize = 0;
        while i < self.paths[v].len()
            invariant
                v < self.paths@.len(),
                before[v as int] == self.paths@[v as int]@,
                s.list_valid(v as int, before[v as int]),
                req@.len() == before[v as int].len(),
                want == with_required(before[v as int], req@),
                i <= req@.len(),
                list@ == want.take(i as int),
                s.list_valid(v as int, list@),
            decreases req@.len() - i,
        {
            let p: Path = self.paths[v][i];
            assert(s.path_valid(v as int, before[v as int][i as int]));
            let ghost done = list@;
            list.push(Path { required: req[i], ..p });
            i = i + 1;
            assert(list@ =~= want.take(i as int));
            assert forall|k: int| 0 <= k < list@.len() implies s.path_valid(v as int, #[trigger] list@[k]) by {
                if k < done.len() {
                    assert(list@[k] == done[k]);
                }
            }
        }
        assert(list@ =~= want);
        self.paths.set(v, list);
        assert(self.path_lists() =~= before.update(v as int, want));
    }

    /// Every vertex in reverse level order: what its paths' arrivals are required by.
    pub fn find_requireds(&mut self) -> (r: Result<(), String>)
        requires
            old(self).valid(),
            old(self)@.paths_valid(old(self).path_lists()),
        ensures
            final(self).valid(),
            final(self)@ == old(self)@,
            final(self).graph == old(self).graph,
            final(self).sdc == old(self).sdc,
            final(self)@.paths_valid(final(self).path_lists()),
            match r {
                Ok(_) => topology::order_of(old(self)@.g) matches Some(order) && final(self).path_lists() == old(
                    self,
                )@.requireds_along(order, order.len() as int, old(self).path_lists()),
                Err(e) => {
                    &&& topology::order_of(old(self)@.g) is None
                    &&& e@ == "the timing graph has a loop — not modelled"@
                    &&& final(self).path_lists() == old(self).path_lists()
                },
            },
    {
        let ghost s = self@;
        let order: Vec<usize> = self.graph.topo_order()?;
        let ghost all = s.requireds_along(order@, order@.len() as int, self.path_lists());
        let mut n: usize = order.len();
        while n > 0
            invariant
                self.valid(),
                s == self@,
                self.graph == old(self).graph,
                self.sdc == old(self).sdc,
                topology::order_of(s.g) is Some,
                s.paths_valid(self.path_lists()),
                graph::all_below(order@, s.g.vertices.len()),
                n <= order@.len(),
                s.requireds_along(order@, n as int, self.path_lists()) == all,
            decreases n,
        {
            n = n - 1;
            let v: usize = order[n];
            let req: Vec<F32> = self.requireds_at(v);
            self.require(v, &req);
        }
        Ok(())
    }

    /// The fuzzily least `required - arrival` over max paths, in tag order (1e30 with none).
    pub fn vertex_slack(&self, v: usize) -> (r: F32)
        requires
            v < self.paths@.len(),
        ensures
            r == slack_at(self.path_lists(), v as int),
    {
        let ghost list = self.path_lists()[v as int];
        assert(list == self.paths@[v as int]@);
        let mut slack: F32 = F32(INF);
        let mut i: usize = 0;
        while i < self.paths[v].len()
            invariant
                v < self.paths@.len(),
                list == self.paths@[v as int]@,
                i <= list.len(),
                slack == least_slack(list, i as int),
            decreases list.len() - i,
        {
            let p: Path = self.paths[v][i];
            if p.tag.mm == MAX {
                let s: F32 = p.required - p.arrival;
                if fuzzy::less(s, slack) {
                    slack = s;
                }
            }
            i = i + 1;
        }
        slack
    }

    /// The fuzzily least slack over a net's load pins, in the net's pin order (1e30 with none).
    pub fn net_slack(&self, loads: &[usize]) -> (r: F32)
        requires
            graph::all_below(loads@, self.paths@.len()),
        ensures
            r == least_load(self.path_lists(), loads@, loads@.len() as int),
    {
        let mut slack: F32 = F32(INF);
        let mut i: usize = 0;
        while i < loads.len()
            invariant
                graph::all_below(loads@, self.paths@.len()),
                i <= loads@.len(),
                slack == least_load(self.path_lists(), loads@, i as int),
            decreases loads@.len() - i,
        {
            let s: F32 = self.vertex_slack(loads[i]);
            if fuzzy::less(s, slack) {
                slack = s;
            }
            i = i + 1;
        }
        slack
    }
}

/// Requireds that differ at one path alone.
spec fn differ_at(a: Seq<F32>, b: Seq<F32>, i: int) -> bool {
    a.len() == b.len() && forall|j: int| 0 <= j < a.len() && j != i ==> #[trigger] a[j] == b[j]
}

/// Requireds that differ at max paths alone.
spec fn differ_at_max(paths: Seq<Path>, a: Seq<F32>, b: Seq<F32>) -> bool {
    a.len() == b.len() && forall|j: int|
        0 <= j < a.len() && paths[j].tag.mm != MAX ==> #[trigger] a[j] == b[j]
}

proof fn lemma_back_arcs(s: SearchView, paths: Seq<Seq<Path>>, from_v: usize, i: int, e: int, k: int, req: Seq<F32>)
    requires
        0 <= i < req.len(),
    ensures
        differ_at(s.back_arcs(paths, from_v, i, e, k, req), req, i),
    decreases s.arcs_from(e, paths[from_v as int][i].tag.rf).len() - k,
{
    let from = paths[from_v as int][i];
    let arcs = s.arcs_from(e, from.tag.rf);
    if 0 <= k < arcs.len() {
        let next = match s.through(from_v, from, e, arcs[k]) {
            None => req,
            Some((tag, delay, _)) => match required_of(paths[s.g.edges[e].to as int], tag) {
                None => req,
                Some(r) => lowered(req, i, r - delay),
            },
        };
        lemma_back_arcs(s, paths, from_v, i, e, k + 1, next);
    }
}

proof fn lemma_back_paths(s: SearchView, paths: Seq<Seq<Path>>, v: usize, i: int, e: int, req: Seq<F32>)
    requires
        req.len() == paths[v as int].len(),
    ensures
        differ_at_max(paths[v as int], s.back_paths(paths, v, i, e, req), req),
    decreases paths[v as int].len() - i,
{
    if 0 <= i < paths[v as int].len() {
        lemma_back_arcs(s, paths, v, i, e, 0, req);
        let next = if paths[v as int][i].tag.mm == MAX {
            s.back_arcs(paths, v, i, e, 0, req)
        } else {
            req
        };
        lemma_back_paths(s, paths, v, i + 1, e, next);
    }
}

proof fn lemma_back_edges(s: SearchView, paths: Seq<Seq<Path>>, v: usize, outs: Seq<usize>, n: int, req: Seq<F32>)
    requires
        req.len() == paths[v as int].len(),
    ensures
        differ_at_max(paths[v as int], s.back_edges(paths, v, outs, n, req), req),
    decreases n,
{
    if n > 0 {
        let e = outs[n - 1] as int;
        lemma_back_paths(s, paths, v, 0, e, req);
        let next = if s.walks(e) {
            s.back_paths(paths, v, 0, e, req)
        } else {
            req
        };
        lemma_back_edges(s, paths, v, outs, n - 1, next);
    }
}

proof fn lemma_end_targets(
    s: SearchView,
    paths: Seq<Seq<Path>>,
    v: int,
    i: int,
    src: usize,
    e: int,
    k: int,
    j: int,
    req: Seq<F32>,
)
    requires
        0 <= i < req.len(),
    ensures
        differ_at(s.end_targets(paths, v, i, src, e, k, j, req), req, i),
    decreases paths[s.g.edges[e].from as int].len() - j,
{
    let tgt_v = s.g.edges[e].from as int;
    if 0 <= j < paths[tgt_v].len() {
        let tag = paths[tgt_v][j].tag;
        let next = if tag.mm == MIN && tag.rf == s.g.arc_set(e).arcs[k].from_rf && tag.is_clock {
            lowered(
                req,
                i,
                s.setup_required(paths, paths[v][i], src, tgt_v, j, s.arc_delay(e, k, MAX as int)),
            )
        } else {
            req
        };
        lemma_end_targets(s, paths, v, i, src, e, k, j + 1, next);
    }
}

proof fn lemma_end_arcs(
    s: SearchView,
    paths: Seq<Seq<Path>>,
    v: int,
    i: int,
    src: usize,
    e: int,
    k: int,
    req: Seq<F32>,
)
    requires
        0 <= i < req.len(),
    ensures
        differ_at(s.end_arcs(paths, v, i, src, e, k, req), req, i),
    decreases s.g.arc_set(e).arcs.len() - k,
{
    if 0 <= k < s.g.arc_set(e).arcs.len() {
        lemma_end_targets(s, paths, v, i, src, e, k, 0, req);
        let next = if s.g.arc_set(e).arcs[k].to_rf == paths[v][i].tag.rf {
            s.end_targets(paths, v, i, src, e, k, 0, req)
        } else {
            req
        };
        lemma_end_arcs(s, paths, v, i, src, e, k + 1, next);
    }
}

proof fn lemma_end_checks(s: SearchView, paths: Seq<Seq<Path>>, v: int, i: int, src: usize, n: int, req: Seq<F32>)
    requires
        0 <= i < req.len(),
    ensures
        differ_at(s.end_checks(paths, v, i, src, n, req), req, i),
    decreases n,
{
    if n > 0 {
        let e = s.g.in_edges[v][n - 1] as int;
        lemma_end_arcs(s, paths, v, i, src, e, 0, req);
        let next = if s.g.role(e) == Some(Role::Setup) {
            s.end_arcs(paths, v, i, src, e, 0, req)
        } else {
            req
        };
        lemma_end_checks(s, paths, v, i, src, n - 1, next);
    }
}

proof fn lemma_path_ends(s: SearchView, paths: Seq<Seq<Path>>, v: int, i: int, req: Seq<F32>)
    requires
        req.len() == paths[v].len(),
    ensures
        differ_at_max(paths[v], s.path_ends(paths, v, i, req), req),
    decreases paths[v].len() - i,
{
    if 0 <= i < paths[v].len() {
        let tag = paths[v][i].tag;
        lemma_end_checks(s, paths, v, i, tag.clk_edge->0, s.g.in_edges[v].len() as int, req);
        let next = if tag.mm == MAX && tag.clk_edge is Some {
            s.path_end(paths, v, i, tag.clk_edge->0, req)
        } else {
            req
        };
        lemma_path_ends(s, paths, v, i + 1, next);
    }
}

/// A vertex's requireds, one per path; a min path's is not constrained.
pub proof fn lemma_min_paths_unconstrained(s: SearchView, paths: Seq<Seq<Path>>, v: int)
    requires
        0 <= v <= usize::MAX,
    ensures
        s.requireds_at(paths, v).len() == paths[v].len(),
        forall|i: int|
            0 <= i < paths[v].len() && paths[v][i].tag.mm != MAX ==> #[trigger] s.requireds_at(paths, v)[i]
                == -F32(INF),
{
    let outs = s.g.out_edges[v];
    let start = unconstrained(paths[v]);
    lemma_back_edges(s, paths, v as usize, outs, outs.len() as int, start);
    let back = s.back_edges(paths, v as usize, outs, outs.len() as int, start);
    lemma_path_ends(s, paths, v, 0, back);
}

/// Paths that differ in their requireds alone.
pub open spec fn same_but_required(a: Seq<Path>, b: Seq<Path>) -> bool {
    a.len() == b.len() && forall|i: int|
        0 <= i < a.len() ==> (#[trigger] a[i]).tag == b[i].tag && a[i].arrival == b[i].arrival && a[i].prev
            == b[i].prev
}

/// Finding requireds changes nothing but requireds.
pub proof fn lemma_requireds_change_nothing_else(s: SearchView, order: Seq<usize>, n: int, paths: Seq<Seq<Path>>)
    requires
        graph::all_below(order, paths.len()),
        n <= order.len(),
    ensures
        s.requireds_along(order, n, paths).len() == paths.len(),
        forall|v: int|
            0 <= v < paths.len() ==> same_but_required(#[trigger] s.requireds_along(order, n, paths)[v], paths[v]),
    decreases n,
{
    if n > 0 {
        let v = order[n - 1] as int;
        let next = paths.update(v, with_required(paths[v], s.requireds_at(paths, v)));
        lemma_requireds_change_nothing_else(s, order, n - 1, next);
        let all = s.requireds_along(order, n, paths);
        assert forall|u: int| 0 <= u < paths.len() implies same_but_required(#[trigger] all[u], paths[u]) by {
            assert(same_but_required(all[u], next[u]));
            assert(same_but_required(next[u], paths[u]));
            assert forall|i: int| 0 <= i < all[u].len() implies (#[trigger] all[u][i]).tag == paths[u][i].tag
                && all[u][i].arrival == paths[u][i].arrival && all[u][i].prev == paths[u][i].prev by {
                assert(next[u][i].tag == paths[u][i].tag);
            }
        }
    }
}

/// Without a propagated clock, and for a path from an input, a check has no CRPR credit; with one the
/// credit is never negative.
pub proof fn lemma_crpr_credit(s: SearchView, paths: Seq<Seq<Path>>, path: Path, tgt_v: int, j: int)
    requires
        s.can_back_up(paths),
        s.tag_valid(path.tag),
        s.has_path(paths, tgt_v, j),
    ensures
        !s.sdc.clock.propagated || path.tag.crpr is None ==> s.check_crpr(paths, path, tgt_v, j) == F32(0),
        !s.check_crpr(paths, path, tgt_v, j).is_lt(F32(0)),
{
    reveal(F32::is_lt);
    if let Some(c) = path.tag.crpr {
        search::lemma_first(paths[c.vertex as int], Sought::Clock(c), 0);
        if let Some(i) = search::first(paths[c.vertex as int], Sought::Clock(c), 0) {
            lemma_credit_not_negative(s, paths, c.vertex as int, i, tgt_v, j);
        }
    }
}

proof fn lemma_credit_not_negative(s: SearchView, paths: Seq<Seq<Path>>, sv: int, si: int, tv: int, ti: int)
    requires
        s.can_back_up(paths),
        s.has_path(paths, sv, si),
        s.has_path(paths, tv, ti),
    ensures
        !s.credit(paths, sv, si, tv, ti).is_lt(F32(0)),
    decreases levels::levels(s.g)[sv] + levels::levels(s.g)[tv],
{
    reveal(F32::is_lt);
    reveal(F32::abs_value);
    s.lemma_prev_path(paths, sv, si);
    s.lemma_prev_path(paths, tv, ti);
    if sv != tv {
        let (sl, tl) = (levels::levels(s.g)[sv], levels::levels(s.g)[tv]);
        let source = if sl >= tl {
            s.prev_path(paths, sv, si)
        } else {
            Some((sv, si))
        };
        let target = if sl <= tl {
            s.prev_path(paths, tv, ti)
        } else {
            Some((tv, ti))
        };
        if let (Some((su, sj)), Some((tu, tj))) = (source, target) {
            lemma_credit_not_negative(s, paths, su, sj, tu, tj);
        }
    }
}

/// The slack of a path.
pub open spec fn path_slack(p: Path) -> F32 {
    p.required - p.arrival
}

/// The least slack of paths is that of one of the max paths, or 1e30; no max path's is fuzzily less.
pub proof fn lemma_least_slack(paths: Seq<Path>, n: int)
    requires
        0 <= n <= paths.len(),
    ensures
        ({
            let least = least_slack(paths, n);
            &&& least == F32(INF) || (fuzzy::below(least, F32(INF)) && exists|i: int|
                0 <= i < n && (#[trigger] paths[i]).tag.mm == MAX && path_slack(paths[i]) == least)
            &&& forall|i: int|
                0 <= i < n && (#[trigger] paths[i]).tag.mm == MAX ==> !fuzzy::below(path_slack(paths[i]), least)
        }),
    decreases n,
{
    if n > 0 {
        lemma_least_slack(paths, n - 1);
        let (before, least) = (least_slack(paths, n - 1), least_slack(paths, n));
        let slack = path_slack(paths[n - 1]);
        if paths[n - 1].tag.mm == MAX && fuzzy::below(slack, before) {
            if before != F32(INF) {
                fuzzy::lemma_less_is_transitive(slack, before, F32(INF));
            }
            assert forall|i: int| 0 <= i < n && (#[trigger] paths[i]).tag.mm == MAX implies !fuzzy::below(
                path_slack(paths[i]),
                least,
            ) by {
                if fuzzy::below(path_slack(paths[i]), least) {
                    fuzzy::lemma_less_is_transitive(path_slack(paths[i]), least, before);
                    assert(i == n - 1);
                    reveal(F32::is_lt);
                }
            }
        }
    }
}

/// The least slack of loads is that of one of them, or 1e30; no load's is fuzzily less. That of a
/// single load is the load's own; that of none is 1e30.
pub proof fn lemma_least_load(paths: Seq<Seq<Path>>, loads: Seq<usize>, n: int)
    requires
        0 <= n <= loads.len(),
    ensures
        ({
            let least = least_load(paths, loads, n);
            &&& least == F32(INF) || (fuzzy::below(least, F32(INF)) && exists|i: int|
                0 <= i < n && slack_at(paths, (#[trigger] loads[i]) as int) == least)
            &&& forall|i: int|
                0 <= i < n ==> !fuzzy::below(slack_at(paths, (#[trigger] loads[i]) as int), least)
            &&& n == 0 ==> least == F32(INF)
            &&& n == 1 ==> least == slack_at(paths, loads[0] as int)
        }),
    decreases n,
{
    if n > 0 {
        lemma_least_load(paths, loads, n - 1);
        let (before, least) = (least_load(paths, loads, n - 1), least_load(paths, loads, n));
        let v = loads[n - 1] as int;
        let slack = slack_at(paths, v);
        lemma_least_slack(paths[v], paths[v].len() as int);
        if fuzzy::below(slack, before) {
            if before != F32(INF) {
                fuzzy::lemma_less_is_transitive(slack, before, F32(INF));
            }
            assert forall|i: int| 0 <= i < n implies !fuzzy::below(
                slack_at(paths, (#[trigger] loads[i]) as int),
                least,
            ) by {
                if fuzzy::below(slack_at(paths, loads[i] as int), least) {
                    fuzzy::lemma_less_is_transitive(slack_at(paths, loads[i] as int), least, before);
                    assert(i == n - 1);
                    reveal(F32::is_lt);
                }
            }
        }
    }
}

} // verus!
