//! What holds of the requireds of a search: what bounds each, and that none is above a bound.

use vstd::prelude::*;
use crate::float32::F32;
use crate::fuzzy;
use crate::graph;
use crate::levels;
use crate::liberty::{Role, MAX, MIN};
use crate::requireds;
use crate::search;
use crate::search::{Path, SearchView, Sought, INF};
use crate::topology;

verus! {

impl SearchView {
    /// Edge `e` is walked out of `v`, and `k` is one of its arcs from path `i`'s transition.
    pub open spec fn leaves(self, paths: Seq<Seq<Path>>, v: int, i: int, e: int, k: int) -> bool {
        &&& 0 <= e < self.g.edges.len()
        &&& self.g.edges[e].from == v
        &&& self.walks(e)
        &&& 0 <= k < self.arcs_from(e, paths[v][i].tag.rf).len()
    }

    /// The required of the path that path `i` goes to through an arc, less the arc's delay.
    pub open spec fn fanout_bound(self, paths: Seq<Seq<Path>>, v: int, i: int, e: int, k: int) -> Option<F32> {
        let from = paths[v][i];
        match self.through(v as usize, from, e, self.arcs_from(e, from.tag.rf)[k]) {
            None => None,
            Some((tag, delay, _)) => match requireds::required_of(paths[self.g.edges[e].to as int], tag) {
                None => None,
                Some(r) => Some(r - delay),
            },
        }
    }

    /// Path `i`, launched by a clock edge, is captured at arc `k` of setup check `e` by the clock
    /// path `j`.
    pub open spec fn captured(self, paths: Seq<Seq<Path>>, v: int, i: int, e: int, k: int, j: int) -> bool {
        let tgt = paths[self.g.edges[e].from as int];
        &&& paths[v][i].tag.clk_edge is Some
        &&& self.output_delay(v) is None
        &&& 0 <= e < self.g.edges.len()
        &&& self.g.edges[e].to == v
        &&& self.g.role(e) == Some(Role::Setup)
        &&& 0 <= k < self.g.arc_set(e).arcs.len()
        &&& self.g.arc_set(e).arcs[k].to_rf == paths[v][i].tag.rf
        &&& 0 <= j < tgt.len()
        &&& tgt[j].tag.mm == MIN
        &&& tgt[j].tag.rf == self.g.arc_set(e).arcs[k].from_rf
        &&& tgt[j].tag.is_clock
    }

    /// What a setup check requires of path `i`.
    pub open spec fn check_bound(self, paths: Seq<Seq<Path>>, v: int, i: int, e: int, k: int, j: int) -> F32 {
        self.setup_required(
            paths,
            paths[v][i],
            paths[v][i].tag.clk_edge->0,
            self.g.edges[e].from as int,
            j,
            self.arc_delay(e, k, MAX as int),
        )
    }

    /// What a port's output delay requires of path `i`.
    pub open spec fn port_bound(self, paths: Seq<Seq<Path>>, v: int, i: int) -> Option<F32> {
        match (self.output_delay(v), paths[v][i].tag.clk_edge) {
            (Some(d), Some(src)) => Some(
                (self.sdc.clock.setup_required(src as int, 0) + (F32(0) + F32(0)))
                    - self.sdc.output_delays[d].delay[paths[v][i].tag.rf as int][MAX as int],
            ),
            _ => None,
        }
    }

    /// A value that bounds the required of path `i`.
    pub open spec fn bounds(self, paths: Seq<Seq<Path>>, v: int, i: int, x: F32) -> bool {
        ||| exists|e: int, k: int|
            self.leaves(paths, v, i, e, k) && #[trigger] self.fanout_bound(paths, v, i, e, k) == Some(x)
        ||| exists|e: int, k: int, j: int|
            self.captured(paths, v, i, e, k, j) && #[trigger] self.check_bound(paths, v, i, e, k, j) == x
        ||| self.port_bound(paths, v, i) == Some(x)
    }
}

/// Requireds, each 1e30 or one of what bounds it, for max paths.
spec fn explained(s: SearchView, paths: Seq<Seq<Path>>, v: int, req: Seq<F32>) -> bool {
    &&& req.len() == paths[v].len()
    &&& forall|m: int|
        0 <= m < req.len() && paths[v][m].tag.mm == MAX ==> #[trigger] req[m] == F32(INF) || s.bounds(
            paths,
            v,
            m,
            req[m],
        )
}

/// A value that is not fuzzily below a required.
spec fn met(req: Seq<F32>, m: int, x: F32) -> bool {
    !fuzzy::below(x, req[m])
}

proof fn lemma_lowered(req: Seq<F32>, i: int, value: F32, m: int, x: F32)
    requires
        0 <= i < req.len(),
        0 <= m < req.len(),
    ensures
        met(req, m, x) ==> met(requireds::lowered(req, i, value), m, x),
        met(requireds::lowered(req, i, value), i, value),
{
    reveal(F32::is_lt);
    let after = requireds::lowered(req, i, value);
    if m == i && met(req, m, x) && fuzzy::below(value, req[i]) && fuzzy::below(x, value) {
        fuzzy::lemma_less_is_transitive(x, value, req[i]);
    }
}

proof fn lemma_back_arcs(
    s: SearchView,
    paths: Seq<Seq<Path>>,
    v: int,
    i: int,
    e: int,
    k: int,
    req: Seq<F32>,
    m: int,
    x: F32,
)
    requires
        0 <= v <= usize::MAX,
        0 <= i < paths[v].len(),
        0 <= m < paths[v].len(),
        0 <= e < s.g.edges.len(),
        s.g.edges[e].from == v,
        s.walks(e),
        0 <= k,
        explained(s, paths, v, req),
    ensures
        ({
            let after = s.back_arcs(paths, v as usize, i, e, k, req);
            &&& explained(s, paths, v, after)
            &&& met(req, m, x) ==> met(after, m, x)
            &&& forall|y: int|
                k <= y && s.leaves(paths, v, i, e, y) && (#[trigger] s.fanout_bound(paths, v, i, e, y)) is Some ==> met(
                    after,
                    i,
                    s.fanout_bound(paths, v, i, e, y)->0,
                )
        }),
    decreases s.arcs_from(e, paths[v][i].tag.rf).len() - k,
{
    let arcs = s.arcs_from(e, paths[v][i].tag.rf);
    if k < arcs.len() {
        let own = s.fanout_bound(paths, v, i, e, k);
        let next = match own {
            None => req,
            Some(b) => {
                assert(s.leaves(paths, v, i, e, k));
                lemma_lowered(req, i, b, m, x);
                requireds::lowered(req, i, b)
            },
        };
        assert(s.back_arcs(paths, v as usize, i, e, k, req) == s.back_arcs(paths, v as usize, i, e, k + 1, next));
        assert(explained(s, paths, v, next));
        lemma_back_arcs(s, paths, v, i, e, k + 1, next, m, x);
        if let Some(b) = own {
            lemma_back_arcs(s, paths, v, i, e, k + 1, next, i, b);
        }
    }
}

proof fn lemma_back_paths(s: SearchView, paths: Seq<Seq<Path>>, v: int, i: int, e: int, req: Seq<F32>, m: int, x: F32)
    requires
        0 <= v <= usize::MAX,
        0 <= i,
        0 <= m < paths[v].len(),
        0 <= e < s.g.edges.len(),
        s.g.edges[e].from == v,
        s.walks(e),
        explained(s, paths, v, req),
    ensures
        ({
            let after = s.back_paths(paths, v as usize, i, e, req);
            &&& explained(s, paths, v, after)
            &&& met(req, m, x) ==> met(after, m, x)
            &&& forall|y: int|
                i <= m && paths[v][m].tag.mm == MAX && s.leaves(paths, v, m, e, y) && (#[trigger] s.fanout_bound(
                    paths,
                    v,
                    m,
                    e,
                    y,
                )) is Some ==> met(after, m, s.fanout_bound(paths, v, m, e, y)->0)
        }),
    decreases paths[v].len() - i,
{
    if i < paths[v].len() {
        let next = if paths[v][i].tag.mm == MAX {
            lemma_back_arcs(s, paths, v, i, e, 0, req, m, x);
            s.back_arcs(paths, v as usize, i, e, 0, req)
        } else {
            req
        };
        lemma_back_paths(s, paths, v, i + 1, e, next, m, x);
        let after = s.back_paths(paths, v as usize, i, e, req);
        assert forall|y: int|
            i <= m && paths[v][m].tag.mm == MAX && s.leaves(paths, v, m, e, y) && (#[trigger] s.fanout_bound(
                paths,
                v,
                m,
                e,
                y,
            )) is Some implies met(after, m, s.fanout_bound(paths, v, m, e, y)->0) by {
            if m == i {
                lemma_back_paths(s, paths, v, i + 1, e, next, m, s.fanout_bound(paths, v, m, e, y)->0);
            }
        }
    }
}

proof fn lemma_back_edges(
    s: SearchView,
    paths: Seq<Seq<Path>>,
    v: int,
    outs: Seq<usize>,
    n: int,
    req: Seq<F32>,
    m: int,
    x: F32,
)
    requires
        0 <= v <= usize::MAX,
        0 <= n <= outs.len(),
        forall|z: int|
            0 <= z < outs.len() ==> (#[trigger] outs[z]) < s.g.edges.len() && s.g.edges[outs[z] as int].from == v,
        0 <= m < paths[v].len(),
        explained(s, paths, v, req),
    ensures
        ({
            let after = s.back_edges(paths, v as usize, outs, n, req);
            &&& explained(s, paths, v, after)
            &&& met(req, m, x) ==> met(after, m, x)
            &&& forall|z: int, y: int|
                0 <= z < n && paths[v][m].tag.mm == MAX && s.leaves(paths, v, m, outs[z] as int, y) && (
                #[trigger] s.fanout_bound(paths, v, m, outs[z] as int, y)) is Some ==> met(
                    after,
                    m,
                    s.fanout_bound(paths, v, m, outs[z] as int, y)->0,
                )
        }),
    decreases n,
{
    if n > 0 {
        let e = outs[n - 1] as int;
        assert(outs[n - 1] < s.g.edges.len());
        let next = if s.walks(e) {
            lemma_back_paths(s, paths, v, 0, e, req, m, x);
            s.back_paths(paths, v as usize, 0, e, req)
        } else {
            req
        };
        lemma_back_edges(s, paths, v, outs, n - 1, next, m, x);
        let after = s.back_edges(paths, v as usize, outs, n, req);
        assert forall|z: int, y: int|
            0 <= z < n && paths[v][m].tag.mm == MAX && s.leaves(paths, v, m, outs[z] as int, y) && (
            #[trigger] s.fanout_bound(paths, v, m, outs[z] as int, y)) is Some implies met(
            after,
            m,
            s.fanout_bound(paths, v, m, outs[z] as int, y)->0,
        ) by {
            if z == n - 1 {
                lemma_back_edges(s, paths, v, outs, n - 1, next, m, s.fanout_bound(paths, v, m, e, y)->0);
            }
        }
    }
}

proof fn lemma_end_targets(
    s: SearchView,
    paths: Seq<Seq<Path>>,
    v: int,
    i: int,
    e: int,
    k: int,
    j: int,
    req: Seq<F32>,
    m: int,
    x: F32,
)
    requires
        0 <= i < paths[v].len(),
        0 <= m < paths[v].len(),
        paths[v][i].tag.clk_edge is Some,
        s.output_delay(v) is None,
        0 <= e < s.g.edges.len(),
        s.g.edges[e].to == v,
        s.g.role(e) == Some(Role::Setup),
        0 <= k < s.g.arc_set(e).arcs.len(),
        s.g.arc_set(e).arcs[k].to_rf == paths[v][i].tag.rf,
        0 <= j,
        explained(s, paths, v, req),
    ensures
        ({
            let after = s.end_targets(paths, v, i, paths[v][i].tag.clk_edge->0, e, k, j, req);
            &&& explained(s, paths, v, after)
            &&& met(req, m, x) ==> met(after, m, x)
            &&& forall|y: int|
                j <= y && #[trigger] s.captured(paths, v, i, e, k, y) ==> met(
                    after,
                    i,
                    s.check_bound(paths, v, i, e, k, y),
                )
        }),
    decreases paths[s.g.edges[e].from as int].len() - j,
{
    let src = paths[v][i].tag.clk_edge->0;
    if j < paths[s.g.edges[e].from as int].len() {
        let own = s.check_bound(paths, v, i, e, k, j);
        let captures = s.captured(paths, v, i, e, k, j);
        let next = if captures {
            lemma_lowered(req, i, own, m, x);
            requireds::lowered(req, i, own)
        } else {
            req
        };
        assert(s.end_targets(paths, v, i, src, e, k, j, req) == s.end_targets(paths, v, i, src, e, k, j + 1, next));
        assert(explained(s, paths, v, next));
        lemma_end_targets(s, paths, v, i, e, k, j + 1, next, m, x);
        if captures {
            lemma_end_targets(s, paths, v, i, e, k, j + 1, next, i, own);
        }
    }
}

proof fn lemma_end_arcs(
    s: SearchView,
    paths: Seq<Seq<Path>>,
    v: int,
    i: int,
    e: int,
    k: int,
    req: Seq<F32>,
    m: int,
    x: F32,
)
    requires
        0 <= i < paths[v].len(),
        0 <= m < paths[v].len(),
        paths[v][i].tag.clk_edge is Some,
        s.output_delay(v) is None,
        0 <= e < s.g.edges.len(),
        s.g.edges[e].to == v,
        s.g.role(e) == Some(Role::Setup),
        0 <= k,
        explained(s, paths, v, req),
    ensures
        ({
            let after = s.end_arcs(paths, v, i, paths[v][i].tag.clk_edge->0, e, k, req);
            &&& explained(s, paths, v, after)
            &&& met(req, m, x) ==> met(after, m, x)
            &&& forall|z: int, y: int|
                k <= z && #[trigger] s.captured(paths, v, i, e, z, y) ==> met(
                    after,
                    i,
                    s.check_bound(paths, v, i, e, z, y),
                )
        }),
    decreases s.g.arc_set(e).arcs.len() - k,
{
    let src = paths[v][i].tag.clk_edge->0;
    if k < s.g.arc_set(e).arcs.len() {
        let next = if s.g.arc_set(e).arcs[k].to_rf == paths[v][i].tag.rf {
            lemma_end_targets(s, paths, v, i, e, k, 0, req, m, x);
            s.end_targets(paths, v, i, src, e, k, 0, req)
        } else {
            req
        };
        lemma_end_arcs(s, paths, v, i, e, k + 1, next, m, x);
        let after = s.end_arcs(paths, v, i, src, e, k, req);
        assert forall|z: int, y: int| k <= z && #[trigger] s.captured(paths, v, i, e, z, y) implies met(
            after,
            i,
            s.check_bound(paths, v, i, e, z, y),
        ) by {
            if z == k {
                lemma_end_arcs(s, paths, v, i, e, k + 1, next, i, s.check_bound(paths, v, i, e, z, y));
            }
        }
    }
}

proof fn lemma_end_checks(
    s: SearchView,
    paths: Seq<Seq<Path>>,
    v: int,
    i: int,
    n: int,
    req: Seq<F32>,
    m: int,
    x: F32,
)
    requires
        0 <= i < paths[v].len(),
        0 <= m < paths[v].len(),
        paths[v][i].tag.clk_edge is Some,
        s.output_delay(v) is None,
        0 <= n <= s.g.in_edges[v].len(),
        forall|z: int|
            0 <= z < s.g.in_edges[v].len() ==> (#[trigger] s.g.in_edges[v][z]) < s.g.edges.len()
                && s.g.edges[s.g.in_edges[v][z] as int].to == v,
        explained(s, paths, v, req),
    ensures
        ({
            let after = s.end_checks(paths, v, i, paths[v][i].tag.clk_edge->0, n, req);
            &&& explained(s, paths, v, after)
            &&& met(req, m, x) ==> met(after, m, x)
            &&& forall|w: int, z: int, y: int|
                0 <= w < n && #[trigger] s.captured(paths, v, i, s.g.in_edges[v][w] as int, z, y) ==> met(
                    after,
                    i,
                    s.check_bound(paths, v, i, s.g.in_edges[v][w] as int, z, y),
                )
        }),
    decreases n,
{
    let src = paths[v][i].tag.clk_edge->0;
    if n > 0 {
        let e = s.g.in_edges[v][n - 1] as int;
        assert(s.g.in_edges[v][n - 1] < s.g.edges.len());
        let next = if s.g.role(e) == Some(Role::Setup) {
            lemma_end_arcs(s, paths, v, i, e, 0, req, m, x);
            s.end_arcs(paths, v, i, src, e, 0, req)
        } else {
            req
        };
        lemma_end_checks(s, paths, v, i, n - 1, next, m, x);
        let after = s.end_checks(paths, v, i, src, n, req);
        assert forall|w: int, z: int, y: int|
            0 <= w < n && #[trigger] s.captured(paths, v, i, s.g.in_edges[v][w] as int, z, y) implies met(
            after,
            i,
            s.check_bound(paths, v, i, s.g.in_edges[v][w] as int, z, y),
        ) by {
            if w == n - 1 {
                lemma_end_checks(s, paths, v, i, n - 1, next, i, s.check_bound(paths, v, i, e, z, y));
            }
        }
    }
}

/// What the ends at `v` ask of path `i` is met.
spec fn ends_met(s: SearchView, paths: Seq<Seq<Path>>, v: int, i: int, req: Seq<F32>) -> bool {
    &&& s.port_bound(paths, v, i) matches Some(x) ==> met(req, i, x)
    &&& forall|w: int, z: int, y: int|
        0 <= w < s.g.in_edges[v].len() && #[trigger] s.captured(paths, v, i, s.g.in_edges[v][w] as int, z, y) ==> met(
            req,
            i,
            s.check_bound(paths, v, i, s.g.in_edges[v][w] as int, z, y),
        )
}

proof fn lemma_path_end(s: SearchView, paths: Seq<Seq<Path>>, v: int, i: int, req: Seq<F32>, m: int, x: F32)
    requires
        0 <= i < paths[v].len(),
        0 <= m < paths[v].len(),
        paths[v][i].tag.clk_edge is Some,
        forall|z: int|
            0 <= z < s.g.in_edges[v].len() ==> (#[trigger] s.g.in_edges[v][z]) < s.g.edges.len()
                && s.g.edges[s.g.in_edges[v][z] as int].to == v,
        explained(s, paths, v, req),
    ensures
        ({
            let after = s.path_end(paths, v, i, paths[v][i].tag.clk_edge->0, req);
            &&& explained(s, paths, v, after)
            &&& met(req, m, x) ==> met(after, m, x)
            &&& ends_met(s, paths, v, i, after)
        }),
{
    match s.output_delay(v) {
        Some(_) => {
            let own = s.port_bound(paths, v, i)->0;
            lemma_lowered(req, i, own, m, x);
            assert(explained(s, paths, v, requireds::lowered(req, i, own)));
        },
        None => {
            lemma_end_checks(s, paths, v, i, s.g.in_edges[v].len() as int, req, m, x);
        },
    }
}

proof fn lemma_path_ends(s: SearchView, paths: Seq<Seq<Path>>, v: int, i: int, req: Seq<F32>, m: int, x: F32)
    requires
        0 <= i,
        0 <= m < paths[v].len(),
        forall|z: int|
            0 <= z < s.g.in_edges[v].len() ==> (#[trigger] s.g.in_edges[v][z]) < s.g.edges.len()
                && s.g.edges[s.g.in_edges[v][z] as int].to == v,
        explained(s, paths, v, req),
    ensures
        ({
            let after = s.path_ends(paths, v, i, req);
            &&& explained(s, paths, v, after)
            &&& met(req, m, x) ==> met(after, m, x)
            &&& i <= m && paths[v][m].tag.mm == MAX ==> ends_met(s, paths, v, m, after)
        }),
    decreases paths[v].len() - i,
{
    if i < paths[v].len() {
        let tag = paths[v][i].tag;
        let clocked = tag.mm == MAX && tag.clk_edge is Some;
        let next = if clocked {
            lemma_path_end(s, paths, v, i, req, m, x);
            s.path_end(paths, v, i, tag.clk_edge->0, req)
        } else {
            req
        };
        lemma_path_ends(s, paths, v, i + 1, next, m, x);
        let after = s.path_ends(paths, v, i, req);
        if m == i && tag.mm == MAX {
            if clocked {
                assert(ends_met(s, paths, v, i, next));
                if let Some(y) = s.port_bound(paths, v, i) {
                    lemma_path_ends(s, paths, v, i + 1, next, i, y);
                }
                assert forall|w: int, z: int, y: int|
                    0 <= w < s.g.in_edges[v].len() && #[trigger] s.captured(
                        paths,
                        v,
                        i,
                        s.g.in_edges[v][w] as int,
                        z,
                        y,
                    ) implies met(after, i, s.check_bound(paths, v, i, s.g.in_edges[v][w] as int, z, y)) by {
                    lemma_path_ends(
                        s,
                        paths,
                        v,
                        i + 1,
                        next,
                        i,
                        s.check_bound(paths, v, i, s.g.in_edges[v][w] as int, z, y),
                    );
                }
            }
        }
    }
}

/// A max path's required is 1e30 or what bounds it: a path it goes to, less the arc's delay, a setup
/// check, or an output delay; and nothing that bounds it is fuzzily below it.
pub proof fn lemma_required_is_the_least(s: SearchView, paths: Seq<Seq<Path>>, v: int, i: int, x: F32)
    requires
        s.g.valid(),
        0 <= v < s.g.vertices.len(),
        s.g.vertices.len() <= usize::MAX,
        0 <= i < paths[v].len(),
        paths[v][i].tag.mm == MAX,
    ensures
        ({
            let r = s.requireds_at(paths, v)[i];
            &&& r == F32(INF) || s.bounds(paths, v, i, r)
            &&& s.bounds(paths, v, i, x) ==> !fuzzy::below(x, r)
        }),
{
    let outs = s.g.out_edges[v];
    let ins = s.g.in_edges[v];
    graph::lemma_edges_at(s.g.edges, v, true);
    graph::lemma_edges_at(s.g.edges, v, false);
    let none = requireds::unconstrained(paths[v]);
    assert(explained(s, paths, v, none));
    lemma_back_edges(s, paths, v, outs, outs.len() as int, none, i, x);
    let back = s.back_edges(paths, v as usize, outs, outs.len() as int, none);
    lemma_path_ends(s, paths, v, 0, back, i, x);
    if s.bounds(paths, v, i, x) {
        if exists|e: int, k: int|
            s.leaves(paths, v, i, e, k) && #[trigger] s.fanout_bound(paths, v, i, e, k) == Some(x) {
            let (e, k) = choose|e: int, k: int|
                s.leaves(paths, v, i, e, k) && #[trigger] s.fanout_bound(paths, v, i, e, k) == Some(x);
            assert(s.g.edges[e].from == v);
            assert(outs.contains(e as usize));
            let z = outs.index_of(e as usize);
            assert(s.fanout_bound(paths, v, i, outs[z] as int, k) == Some(x));
            assert(met(back, i, x));
        } else if exists|e: int, k: int, j: int|
            s.captured(paths, v, i, e, k, j) && #[trigger] s.check_bound(paths, v, i, e, k, j) == x {
            let (e, k, j) = choose|e: int, k: int, j: int|
                s.captured(paths, v, i, e, k, j) && #[trigger] s.check_bound(paths, v, i, e, k, j) == x;
            assert(s.g.edges[e].to == v);
            assert(ins.contains(e as usize));
            let w = ins.index_of(e as usize);
            assert(s.captured(paths, v, i, s.g.in_edges[v][w] as int, k, j));
        }
    }
}

/// Paths of every vertex that differ in their requireds alone.
pub open spec fn all_same(p: Seq<Seq<Path>>, q: Seq<Seq<Path>>) -> bool {
    p.len() == q.len() && forall|u: int| 0 <= u < p.len() ==> requireds::same_but_required(#[trigger] p[u], q[u])
}

proof fn lemma_first_same(a: Seq<Path>, b: Seq<Path>, sought: Sought, i: int)
    requires
        requireds::same_but_required(a, b),
    ensures
        search::first(a, sought, i) == search::first(b, sought, i),
    decreases a.len() - i,
{
    if 0 <= i < a.len() {
        assert(a[i].tag == b[i].tag);
        lemma_first_same(a, b, sought, i + 1);
    }
}

proof fn lemma_valid_same(s: SearchView, p: Seq<Seq<Path>>, q: Seq<Seq<Path>>)
    requires
        all_same(p, q),
        s.paths_valid(p),
    ensures
        s.paths_valid(q),
{
    assert forall|v: int| 0 <= v < q.len() implies s.list_valid(v, #[trigger] q[v]) by {
        assert(requireds::same_but_required(p[v], q[v]));
        assert forall|i: int| 0 <= i < q[v].len() implies s.path_valid(v, #[trigger] q[v][i]) by {
            assert(s.path_valid(v, p[v][i]));
            assert(p[v][i].tag == q[v][i].tag);
        }
    }
}

proof fn lemma_spread_same(s: SearchView, p: Seq<Seq<Path>>, q: Seq<Seq<Path>>, v: int, i: int)
    requires
        all_same(p, q),
        s.has_path(p, v, i),
    ensures
        s.arrival_spread(p, v, i) == s.arrival_spread(q, v, i),
{
    assert(requireds::same_but_required(p[v], q[v]));
    assert(p[v][i].tag == q[v][i].tag);
    let sought = Sought::Opposite(p[v][i].tag);
    lemma_first_same(p[v], q[v], sought, 0);
    search::lemma_first(p[v], sought, 0);
    if let Some(j) = search::first(p[v], sought, 0) {
        assert(p[v][j].tag == q[v][j].tag);
    }
}

proof fn lemma_prev_same(s: SearchView, p: Seq<Seq<Path>>, q: Seq<Seq<Path>>, v: int, i: int)
    requires
        all_same(p, q),
        s.can_back_up(p),
        s.has_path(p, v, i),
    ensures
        s.prev_path(p, v, i) == s.prev_path(q, v, i),
{
    assert(requireds::same_but_required(p[v], q[v]));
    assert(s.list_valid(v, p[v]));
    assert(s.path_valid(v, p[v][i]));
    assert(p[v][i].tag == q[v][i].tag);
    if let Some(prev) = p[v][i].prev {
        assert(s.g.edge_valid(s.g.edges[prev.edge as int]));
        assert(requireds::same_but_required(p[prev.vertex as int], q[prev.vertex as int]));
        lemma_first_same(p[prev.vertex as int], q[prev.vertex as int], Sought::Same(prev.tag), 0);
    }
}

proof fn lemma_credit_same(s: SearchView, p: Seq<Seq<Path>>, q: Seq<Seq<Path>>, sv: int, si: int, tv: int, ti: int)
    requires
        all_same(p, q),
        s.can_back_up(p),
        s.can_back_up(q),
        s.has_path(p, sv, si),
        s.has_path(p, tv, ti),
    ensures
        s.credit(p, sv, si, tv, ti) == s.credit(q, sv, si, tv, ti),
    decreases levels::levels(s.g)[sv] + levels::levels(s.g)[tv],
{
    assert(requireds::same_but_required(p[sv], q[sv]));
    assert(requireds::same_but_required(p[tv], q[tv]));
    s.lemma_prev_path(p, sv, si);
    s.lemma_prev_path(p, tv, ti);
    lemma_prev_same(s, p, q, sv, si);
    lemma_prev_same(s, p, q, tv, ti);
    if sv == tv {
        lemma_spread_same(s, p, q, sv, si);
        lemma_spread_same(s, p, q, tv, ti);
    } else {
        let (sl, tl) = (levels::levels(s.g)[sv], levels::levels(s.g)[tv]);
        let source = if sl >= tl {
            s.prev_path(p, sv, si)
        } else {
            Some((sv, si))
        };
        let target = if sl <= tl {
            s.prev_path(p, tv, ti)
        } else {
            Some((tv, ti))
        };
        if let (Some((su, sj)), Some((tu, tj))) = (source, target) {
            lemma_credit_same(s, p, q, su, sj, tu, tj);
        }
    }
}

proof fn lemma_setup_same(
    s: SearchView,
    p: Seq<Seq<Path>>,
    q: Seq<Seq<Path>>,
    v: int,
    i: int,
    src: usize,
    tgt_v: int,
    j: int,
    margin: F32,
)
    requires
        all_same(p, q),
        s.can_back_up(p),
        s.can_back_up(q),
        s.has_path(p, v, i),
        s.has_path(p, tgt_v, j),
    ensures
        s.setup_required(p, p[v][i], src, tgt_v, j, margin) == s.setup_required(q, q[v][i], src, tgt_v, j, margin),
{
    assert(requireds::same_but_required(p[v], q[v]));
    assert(requireds::same_but_required(p[tgt_v], q[tgt_v]));
    assert(p[v][i].tag == q[v][i].tag);
    assert(p[tgt_v][j].tag == q[tgt_v][j].tag);
    assert(s.list_valid(v, p[v]));
    assert(s.path_valid(v, p[v][i]));
    if let Some(c) = p[v][i].tag.crpr {
        let u = c.vertex as int;
        assert(requireds::same_but_required(p[u], q[u]));
        lemma_first_same(p[u], q[u], Sought::Clock(c), 0);
        search::lemma_first(p[u], Sought::Clock(c), 0);
        if let Some(x) = search::first(p[u], Sought::Clock(c), 0) {
            assert(p[u][x].tag == q[u][x].tag);
            lemma_credit_same(s, p, q, u, x, tgt_v, j);
        }
    }
}

proof fn lemma_end_targets_same(
    s: SearchView,
    p: Seq<Seq<Path>>,
    q: Seq<Seq<Path>>,
    v: int,
    i: int,
    src: usize,
    e: int,
    k: int,
    j: int,
    req: Seq<F32>,
)
    requires
        all_same(p, q),
        s.can_back_up(p),
        s.can_back_up(q),
        s.has_path(p, v, i),
        0 <= e < s.g.edges.len(),
    ensures
        s.end_targets(p, v, i, src, e, k, j, req) == s.end_targets(q, v, i, src, e, k, j, req),
    decreases p[s.g.edges[e].from as int].len() - j,
{
    let tgt_v = s.g.edges[e].from as int;
    assert(s.g.edge_valid(s.g.edges[e]));
    assert(requireds::same_but_required(p[tgt_v], q[tgt_v]));
    if 0 <= j < p[tgt_v].len() {
        assert(p[tgt_v][j].tag == q[tgt_v][j].tag);
        let margin = s.arc_delay(e, k, MAX as int);
        lemma_setup_same(s, p, q, v, i, src, tgt_v, j, margin);
        let tag = p[tgt_v][j].tag;
        let captures = tag.mm == MIN && tag.rf == s.g.arc_set(e).arcs[k].from_rf && tag.is_clock;
        let next = if captures {
            requireds::lowered(req, i, s.setup_required(p, p[v][i], src, tgt_v, j, margin))
        } else {
            req
        };
        lemma_end_targets_same(s, p, q, v, i, src, e, k, j + 1, next);
    }
}

proof fn lemma_end_arcs_same(
    s: SearchView,
    p: Seq<Seq<Path>>,
    q: Seq<Seq<Path>>,
    v: int,
    i: int,
    src: usize,
    e: int,
    k: int,
    req: Seq<F32>,
)
    requires
        all_same(p, q),
        s.can_back_up(p),
        s.can_back_up(q),
        s.has_path(p, v, i),
        0 <= e < s.g.edges.len(),
    ensures
        s.end_arcs(p, v, i, src, e, k, req) == s.end_arcs(q, v, i, src, e, k, req),
    decreases s.g.arc_set(e).arcs.len() - k,
{
    if 0 <= k < s.g.arc_set(e).arcs.len() {
        assert(requireds::same_but_required(p[v], q[v]));
        assert(p[v][i].tag == q[v][i].tag);
        lemma_end_targets_same(s, p, q, v, i, src, e, k, 0, req);
        let next = if s.g.arc_set(e).arcs[k].to_rf == p[v][i].tag.rf {
            s.end_targets(p, v, i, src, e, k, 0, req)
        } else {
            req
        };
        lemma_end_arcs_same(s, p, q, v, i, src, e, k + 1, next);
    }
}

proof fn lemma_end_checks_same(
    s: SearchView,
    p: Seq<Seq<Path>>,
    q: Seq<Seq<Path>>,
    v: int,
    i: int,
    src: usize,
    n: int,
    req: Seq<F32>,
)
    requires
        all_same(p, q),
        s.can_back_up(p),
        s.can_back_up(q),
        s.has_path(p, v, i),
        0 <= n <= s.g.in_edges[v].len(),
        forall|z: int|
            0 <= z < s.g.in_edges[v].len() ==> (#[trigger] s.g.in_edges[v][z]) < s.g.edges.len(),
    ensures
        s.end_checks(p, v, i, src, n, req) == s.end_checks(q, v, i, src, n, req),
    decreases n,
{
    if n > 0 {
        let e = s.g.in_edges[v][n - 1] as int;
        assert(s.g.in_edges[v][n - 1] < s.g.edges.len());
        lemma_end_arcs_same(s, p, q, v, i, src, e, 0, req);
        let next = if s.g.role(e) == Some(Role::Setup) {
            s.end_arcs(p, v, i, src, e, 0, req)
        } else {
            req
        };
        lemma_end_checks_same(s, p, q, v, i, src, n - 1, next);
    }
}

proof fn lemma_path_ends_same(s: SearchView, p: Seq<Seq<Path>>, q: Seq<Seq<Path>>, v: int, i: int, req: Seq<F32>)
    requires
        all_same(p, q),
        s.can_back_up(p),
        s.can_back_up(q),
        0 <= v < p.len(),
        forall|z: int|
            0 <= z < s.g.in_edges[v].len() ==> (#[trigger] s.g.in_edges[v][z]) < s.g.edges.len(),
    ensures
        s.path_ends(p, v, i, req) == s.path_ends(q, v, i, req),
    decreases p[v].len() - i,
{
    assert(requireds::same_but_required(p[v], q[v]));
    if 0 <= i < p[v].len() {
        assert(p[v][i].tag == q[v][i].tag);
        let tag = p[v][i].tag;
        let next = if tag.mm == MAX && tag.clk_edge is Some {
            lemma_end_checks_same(s, p, q, v, i, tag.clk_edge->0, s.g.in_edges[v].len() as int, req);
            s.path_end(p, v, i, tag.clk_edge->0, req)
        } else {
            req
        };
        lemma_path_ends_same(s, p, q, v, i + 1, next);
    }
}

proof fn lemma_back_arcs_same(
    s: SearchView,
    p: Seq<Seq<Path>>,
    q: Seq<Seq<Path>>,
    v: usize,
    i: int,
    e: int,
    k: int,
    req: Seq<F32>,
)
    requires
        all_same(p, q),
        s.has_path(p, v as int, i),
        p[s.g.edges[e].to as int] == q[s.g.edges[e].to as int],
    ensures
        s.back_arcs(p, v, i, e, k, req) == s.back_arcs(q, v, i, e, k, req),
    decreases s.arcs_from(e, p[v as int][i].tag.rf).len() - k,
{
    let (a, b) = (p[v as int][i], q[v as int][i]);
    assert(requireds::same_but_required(p[v as int], q[v as int]));
    assert(a.tag == b.tag && a.arrival == b.arrival);
    let arcs = s.arcs_from(e, a.tag.rf);
    if 0 <= k < arcs.len() {
        assert(s.through(v, a, e, arcs[k]) == s.through(v, b, e, arcs[k]));
        let next = match s.through(v, a, e, arcs[k]) {
            None => req,
            Some((tag, delay, _)) => match requireds::required_of(p[s.g.edges[e].to as int], tag) {
                None => req,
                Some(r) => requireds::lowered(req, i, r - delay),
            },
        };
        lemma_back_arcs_same(s, p, q, v, i, e, k + 1, next);
    }
}

proof fn lemma_back_paths_same(
    s: SearchView,
    p: Seq<Seq<Path>>,
    q: Seq<Seq<Path>>,
    v: usize,
    i: int,
    e: int,
    req: Seq<F32>,
)
    requires
        all_same(p, q),
        v < p.len(),
        p[s.g.edges[e].to as int] == q[s.g.edges[e].to as int],
    ensures
        s.back_paths(p, v, i, e, req) == s.back_paths(q, v, i, e, req),
    decreases p[v as int].len() - i,
{
    assert(requireds::same_but_required(p[v as int], q[v as int]));
    if 0 <= i < p[v as int].len() {
        assert(p[v as int][i].tag == q[v as int][i].tag);
        lemma_back_arcs_same(s, p, q, v, i, e, 0, req);
        let next = if p[v as int][i].tag.mm == MAX {
            s.back_arcs(p, v, i, e, 0, req)
        } else {
            req
        };
        lemma_back_paths_same(s, p, q, v, i + 1, e, next);
    }
}

/// The paths that vertex `v` reads the requireds of are the same.
spec fn same_fanout(s: SearchView, p: Seq<Seq<Path>>, q: Seq<Seq<Path>>, v: int) -> bool {
    forall|e: int|
        0 <= e < s.g.edges.len() && (#[trigger] s.g.edges[e]).from == v && s.walks(e) ==> p[s.g.edges[e].to as int]
            == q[s.g.edges[e].to as int]
}

proof fn lemma_back_edges_same(
    s: SearchView,
    p: Seq<Seq<Path>>,
    q: Seq<Seq<Path>>,
    v: usize,
    outs: Seq<usize>,
    n: int,
    req: Seq<F32>,
)
    requires
        all_same(p, q),
        v < p.len(),
        same_fanout(s, p, q, v as int),
        0 <= n <= outs.len(),
        forall|z: int|
            0 <= z < outs.len() ==> (#[trigger] outs[z]) < s.g.edges.len() && s.g.edges[outs[z] as int].from == v,
    ensures
        s.back_edges(p, v, outs, n, req) == s.back_edges(q, v, outs, n, req),
    decreases n,
{
    if n > 0 {
        let e = outs[n - 1] as int;
        assert(outs[n - 1] < s.g.edges.len() && s.g.edges[e].from == v);
        let next = if s.walks(e) {
            lemma_back_paths_same(s, p, q, v, 0, e, req);
            s.back_paths(p, v, 0, e, req)
        } else {
            req
        };
        lemma_back_edges_same(s, p, q, v, outs, n - 1, next);
    }
}

/// A vertex's requireds depend on nothing but the arrivals and the requireds of its fanout.
proof fn lemma_requireds_same(s: SearchView, p: Seq<Seq<Path>>, q: Seq<Seq<Path>>, v: int)
    requires
        all_same(p, q),
        s.can_back_up(p),
        s.can_back_up(q),
        0 <= v < p.len(),
        p.len() <= usize::MAX,
        same_fanout(s, p, q, v),
    ensures
        s.requireds_at(p, v) == s.requireds_at(q, v),
{
    let outs = s.g.out_edges[v];
    graph::lemma_edges_at(s.g.edges, v, true);
    graph::lemma_edges_at(s.g.edges, v, false);
    assert(requireds::same_but_required(p[v], q[v]));
    assert(requireds::unconstrained(p[v]) =~= requireds::unconstrained(q[v])) by {
        assert forall|i: int| 0 <= i < p[v].len() implies p[v][i].tag == q[v][i].tag by {}
    }
    let none = requireds::unconstrained(p[v]);
    lemma_back_edges_same(s, p, q, v as usize, outs, outs.len() as int, none);
    let back = s.back_edges(p, v as usize, outs, outs.len() as int, none);
    lemma_path_ends_same(s, p, q, v, 0, back);
}

/// A vertex's paths hold its requireds.
pub open spec fn holds_requireds(s: SearchView, paths: Seq<Seq<Path>>, v: int) -> bool {
    forall|i: int|
        0 <= i < paths[v].len() ==> (#[trigger] paths[v][i]).required == s.requireds_at(paths, v)[i]
}

spec fn settled(s: SearchView, order: Seq<usize>, n: int, paths: Seq<Seq<Path>>) -> bool {
    forall|j: int| n <= j < order.len() ==> holds_requireds(s, paths, (#[trigger] order[j]) as int)
}

/// What a later vertex of the order walks to is not an earlier one.
proof fn lemma_fanout_is_later(s: SearchView, order: Seq<usize>, j: int, n: int, e: int)
    requires
        topology::topological(s.g, order),
        0 <= n <= j < order.len(),
        0 <= e < s.g.edges.len(),
        s.g.edges[e].from == order[j],
        s.walks(e),
    ensures
        s.g.edges[e].to != order[n],
{
    if s.g.edges[e].to == order[n] {
        assert(s.g.propagates(e));
        let prefix = order.take(n);
        assert(order[n] == s.g.edges[e].to);
        assert(prefix.contains(s.g.edges[e].from));
        let k = choose|k: int| 0 <= k < prefix.len() && prefix[k] == s.g.edges[e].from;
        assert(order[k] == order[j]);
    }
}

proof fn lemma_settle(s: SearchView, order: Seq<usize>, n: int, paths: Seq<Seq<Path>>)
    requires
        topology::topological(s.g, order),
        s.can_back_up(paths),
        paths.len() <= usize::MAX,
        0 <= n <= order.len(),
        settled(s, order, n, paths),
    ensures
        settled(s, order, 0, s.requireds_along(order, n, paths)),
    decreases n,
{
    if n > 0 {
        let v = order[n - 1] as int;
        assert(order[n - 1] < s.g.vertices.len());
        let req = s.requireds_at(paths, v);
        requireds::lemma_min_paths_unconstrained(s, paths, v);
        let next = paths.update(v, requireds::with_required(paths[v], req));
        assert forall|u: int| 0 <= u < paths.len() implies requireds::same_but_required(
            #[trigger] paths[u],
            next[u],
        ) by {}
        lemma_valid_same(s, paths, next);
        assert forall|j: int| n - 1 <= j < order.len() implies holds_requireds(s, next, (#[trigger] order[j]) as int) by {
            let u = order[j] as int;
            assert(order[j] < s.g.vertices.len());
            assert forall|e: int|
                0 <= e < s.g.edges.len() && (#[trigger] s.g.edges[e]).from == u && s.walks(e) implies paths[s.g.edges[e].to as int]
                == next[s.g.edges[e].to as int] by {
                lemma_fanout_is_later(s, order, j, n - 1, e);
                assert(s.g.edge_valid(s.g.edges[e]));
            }
            lemma_requireds_same(s, paths, next, u);
            if j > n - 1 {
                assert(order[j] != order[n - 1]);
                assert(holds_requireds(s, paths, u));
                assert(next[u] == paths[u]);
            }
            assert forall|i: int| 0 <= i < next[u].len() implies (#[trigger] next[u][i]).required == s.requireds_at(
                next,
                u,
            )[i] by {
                assert(paths[u][i].tag == next[u][i].tag);
            }
        }
        lemma_settle(s, order, n - 1, next);
    }
}

/// Once the requireds are found they are settled: every path's required is the one its fanout's
/// requireds and the ends at its vertex give, and a min path's is -1e30.
pub proof fn lemma_requireds_settle(s: SearchView, paths: Seq<Seq<Path>>, v: int)
    requires
        s.can_back_up(paths),
        paths.len() <= usize::MAX,
        0 <= v < paths.len(),
    ensures
        topology::order_of(s.g) matches Some(order) ==> {
            let found = s.requireds_along(order, order.len() as int, paths);
            &&& holds_requireds(s, found, v)
            &&& forall|i: int|
                0 <= i < found[v].len() && found[v][i].tag.mm != MAX ==> (#[trigger] found[v][i]).required
                    == -F32(INF)
        },
{
    if let Some(order) = topology::order_of(s.g) {
        topology::lemma_order_is_topological(s.g);
        let found = s.requireds_along(order, order.len() as int, paths);
        lemma_settle(s, order, order.len() as int, paths);
        topology::lemma_all_placed(order, s.g.vertices.len(), v as usize);
        let j = choose|j: int| 0 <= j < order.len() && order[j] == v as usize;
        assert(order[j] as int == v);
        assert(holds_requireds(s, found, order[j] as int));
        requireds::lemma_min_paths_unconstrained(s, found, v);
        requireds::lemma_requireds_change_nothing_else(s, order, order.len() as int, paths);
    }
}

} // verus!
