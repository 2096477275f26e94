//! Levels of the timing graph: a vertex with no propagating in-edge is at level 0, any other one
//! above the highest vertex it is reached from.

use vstd::prelude::*;
use crate::graph;
use crate::graph::{Graph, GraphView};
use crate::topology;

verus! {

/// Levels raised along the propagating edges out of `v`, from the `k`th on.
pub open spec fn raised(g: GraphView, v: int, k: int, level: Seq<nat>) -> Seq<nat>
    decreases g.out_edges[v].len() - k,
{
    if k < 0 || k >= g.out_edges[v].len() {
        level
    } else {
        let e = g.out_edges[v][k] as int;
        let to = g.edges[e].to as int;
        let above = level[v] + 1;
        raised(
            g,
            v,
            k + 1,
            if g.checks(e) || level[to] >= above {
                level
            } else {
                level.update(to, above)
            },
        )
    }
}

/// Levels raised along the out-edges of the vertices of an order from the `i`th on.
pub open spec fn raised_along(g: GraphView, order: Seq<usize>, i: int, level: Seq<nat>) -> Seq<nat>
    decreases order.len() - i,
{
    if i < 0 || i >= order.len() {
        level
    } else {
        raised_along(g, order, i + 1, raised(g, order[i] as int, 0, level))
    }
}

pub open spec fn ground(g: GraphView) -> Seq<nat> {
    Seq::new(g.vertices.len(), |v: int| 0nat)
}

/// The level of every vertex; all at 0 where the graph has a loop.
pub open spec fn levels(g: GraphView) -> Seq<nat> {
    match topology::order_of(g) {
        Some(order) => raised_along(g, order, 0, ground(g)),
        None => ground(g),
    }
}

/// Levels after the first `i` vertices of an order, and `done` edges of the next one.
spec fn so_far(g: GraphView, order: Seq<usize>, i: int, done: spec_fn(int) -> bool, level: Seq<nat>) -> bool {
    &&& level.len() == g.vertices.len()
    &&& forall|v: int| 0 <= v < level.len() ==> (#[trigger] level[v]) <= i
    &&& forall|e: int|
        g.propagates(e) && #[trigger] done(e) ==> level[g.edges[e].from as int] < level[g.edges[e].to as int]
    &&& forall|v: int|
        0 <= v < level.len() && (#[trigger] level[v]) > 0 ==> exists|e: int|
            g.propagates(e) && #[trigger] done(e) && g.edges[e].to == v && level[v] == level[g.edges[e].from as int]
                + 1
}

/// A vertex comes after every one it is reached from.
proof fn lemma_later(g: GraphView, order: Seq<usize>, i: int, e: int)
    requires
        topology::topological(g, order),
        0 <= i < order.len(),
        g.propagates(e),
        g.edges_valid(g.edges),
        g.edges[e].from == order[i],
    ensures
        !order.take(i + 1).contains(g.edges[e].to),
{
    let head = order.take(i + 1);
    if head.contains(g.edges[e].to) {
        let j = choose|j: int| 0 <= j < head.len() && head[j] == g.edges[e].to;
        assert(order[j] == g.edges[e].to);
        let before = order.take(j);
        assert(before.contains(g.edges[e].from));
        let m = choose|m: int| 0 <= m < before.len() && before[m] == g.edges[e].from;
        assert(order[m] == order[i]);
    }
}

proof fn lemma_raised(
    g: GraphView,
    order: Seq<usize>,
    i: int,
    k: int,
    before: spec_fn(int) -> bool,
    level: Seq<nat>,
) -> (after: spec_fn(int) -> bool)
    requires
        g.valid(),
        topology::topological(g, order),
        0 <= i < order.len(),
        0 <= k <= g.out_edges[order[i] as int].len(),
        so_far(g, order, i + 1, before, level),
        level[order[i] as int] <= i,
        forall|e: int| g.propagates(e) && #[trigger] before(e) ==> order.take(i + 1).contains(g.edges[e].from),
    ensures
        so_far(g, order, i + 1, after, raised(g, order[i] as int, k, level)),
        forall|e: int| g.propagates(e) && #[trigger] after(e) ==> order.take(i + 1).contains(g.edges[e].from),
        forall|e: int| #[trigger] before(e) ==> after(e),
        forall|j: int|
            k <= j < g.out_edges[order[i] as int].len() ==> after(#[trigger] g.out_edges[order[i] as int][j] as int),
    decreases g.out_edges[order[i] as int].len() - k,
{
    let v = order[i] as int;
    let outs = g.out_edges[v];
    assert(order.take(i + 1)[i] == order[i]);
    if k >= outs.len() {
        before
    } else {
        let e = outs[k] as int;
        let to = g.edges[e].to as int;
        let above = level[v] + 1;
        graph::lemma_edges_at(g.edges, v, false);
        assert(outs == graph::edges_at(g.edges, v, false));
        assert(outs[k] < g.edges.len() && g.edges[outs[k] as int].from == v);
        assert(g.edge_valid(g.edges[e]));
        let next = if g.checks(e) || level[to] >= above {
            level
        } else {
            level.update(to, above)
        };
        let walked = |x: int| before(x) || x == e;
        if g.propagates(e) {
            lemma_later(g, order, i, e);
            assert(order.take(i + 1).contains(order[i]));
        }
        assert forall|x: int| g.propagates(x) && #[trigger] walked(x) implies next[g.edges[x].from as int]
            < next[g.edges[x].to as int] by {
            assert(g.edge_valid(g.edges[x]));
            assert(order.take(i + 1).contains(g.edges[x].from));
            if x != e {
                assert(before(x));
            }
        }
        assert forall|w: int| 0 <= w < next.len() && (#[trigger] next[w]) > 0 implies exists|x: int|
            g.propagates(x) && #[trigger] walked(x) && g.edges[x].to == w && next[w]
                == next[g.edges[x].from as int] + 1 by {
            if w == to && next[w] != level[w] {
                assert(walked(e));
            } else {
                assert(level[w] > 0);
                let x = choose|x: int|
                    g.propagates(x) && #[trigger] before(x) && g.edges[x].to == w && level[w]
                        == level[g.edges[x].from as int] + 1;
                assert(order.take(i + 1).contains(g.edges[x].from));
                assert(walked(x));
            }
        }
        let after = lemma_raised(g, order, i, k + 1, walked, next);
        assert(walked(e));
        assert forall|x: int| #[trigger] before(x) implies after(x) by {
            assert(walked(x));
        }
        after
    }
}

proof fn lemma_raised_along(
    g: GraphView,
    order: Seq<usize>,
    i: int,
    before: spec_fn(int) -> bool,
    level: Seq<nat>,
) -> (after: spec_fn(int) -> bool)
    requires
        g.valid(),
        topology::topological(g, order),
        0 <= i <= order.len(),
        so_far(g, order, i, before, level),
        forall|e: int| g.propagates(e) ==> (#[trigger] before(e) <==> order.take(i).contains(g.edges[e].from)),
    ensures
        so_far(g, order, order.len() as int, after, raised_along(g, order, i, level)),
        forall|e: int| g.propagates(e) ==> #[trigger] after(e),
    decreases order.len() - i,
{
    if i >= order.len() {
        assert forall|e: int| g.propagates(e) implies #[trigger] before(e) by {
            assert(g.edge_valid(g.edges[e]));
            topology::lemma_all_placed(order, g.vertices.len(), g.edges[e].from);
            assert(order.take(i) =~= order);
        }
        before
    } else {
        let v = order[i] as int;
        let (short, long) = (order.take(i), order.take(i + 1));
        assert forall|e: int| g.propagates(e) && #[trigger] before(e) implies order.take(i + 1).contains(
            g.edges[e].from,
        ) by {
            let j = choose|j: int| 0 <= j < short.len() && short[j] == g.edges[e].from;
            assert(long[j] == g.edges[e].from);
        }
        assert(so_far(g, order, i + 1, before, level));
        let mid = lemma_raised(g, order, i, 0, before, level);
        assert forall|e: int| g.propagates(e) implies (#[trigger] mid(e) <==> order.take(i + 1).contains(
            g.edges[e].from,
        )) by {
            if order.take(i + 1).contains(g.edges[e].from) {
                let j = choose|j: int| 0 <= j < long.len() && long[j] == g.edges[e].from;
                if j < i {
                    assert(short[j] == g.edges[e].from);
                    assert(before(e));
                } else {
                    graph::lemma_edges_at(g.edges, v, false);
                    assert(g.out_edges[v] == graph::edges_at(g.edges, v, false));
                    assert(g.edges[e].from == v);
                    assert(g.out_edges[v].contains(e as usize));
                }
            }
        }
        lemma_raised_along(g, order, i + 1, mid, raised(g, v, 0, level))
    }
}

/// In a graph without a loop, levels grow along every propagating edge, and a vertex above level 0
/// is one above a vertex it is reached from.
pub proof fn lemma_levels(g: GraphView)
    requires
        g.valid(),
        topology::order_of(g) is Some,
    ensures
        levels(g).len() == g.vertices.len(),
        forall|v: int| 0 <= v < levels(g).len() ==> (#[trigger] levels(g)[v]) <= g.vertices.len(),
        forall|e: int|
            #[trigger] g.propagates(e) ==> levels(g)[g.edges[e].from as int] < levels(g)[g.edges[e].to as int],
        forall|v: int|
            0 <= v < levels(g).len() && (#[trigger] levels(g)[v]) > 0 ==> exists|e: int| #[trigger]
                g.propagates(e) && g.edges[e].to == v && levels(g)[v] == levels(g)[g.edges[e].from as int] + 1,
{
    let order = topology::order_of(g)->0;
    topology::lemma_order_is_topological(g);
    let before = |e: int| false;
    let level = ground(g);
    let after = lemma_raised_along(g, order, 0, before, level);
    assert forall|e: int| #[trigger] g.propagates(e) implies levels(g)[g.edges[e].from as int]
        < levels(g)[g.edges[e].to as int] by {
        assert(after(e));
    }
    assert forall|v: int| 0 <= v < levels(g).len() && (#[trigger] levels(g)[v]) > 0 implies exists|e: int|
        #[trigger] g.propagates(e) && g.edges[e].to == v && levels(g)[v] == levels(g)[g.edges[e].from as int]
            + 1 by {
        let x = choose|x: int|
            g.propagates(x) && #[trigger] after(x) && g.edges[x].to == v && levels(g)[v]
                == levels(g)[g.edges[x].from as int] + 1;
        assert(g.propagates(x));
    }
}

pub open spec fn level_views(v: Seq<usize>) -> Seq<nat> {
    Seq::new(v.len(), |i: int| v[i] as nat)
}

impl<'a> Graph<'a> {
    fn raise(&self, v: usize, level: &mut Vec<usize>, Ghost(i): Ghost<int>)
        requires
            self@.valid(),
            v < self.vertices@.len(),
            0 <= i < self.vertices@.len(),
            forall|e: int| #[trigger] self@.propagates(e) && self@.edges[e].from == v ==> self@.edges[e].to != v,
            old(level)@.len() == self.vertices@.len(),
            forall|w: int| 0 <= w < old(level)@.len() ==> (#[trigger] old(level)@[w]) <= i,
        ensures
            level_views(final(level)@) == raised(self@, v as int, 0, level_views(old(level)@)),
            final(level)@.len() == self.vertices@.len(),
            forall|w: int| 0 <= w < final(level)@.len() ==> (#[trigger] final(level)@[w]) <= i + 1,
    {
        let ghost g = self@;
        let ghost all = raised(g, v as int, 0, level_views(level@));
        let ghost outs = g.out_edges[v as int];
        proof {
            graph::lemma_edges_at(g.edges, v as int, false);
            assert(outs == graph::edges_at(g.edges, v as int, false));
            assert(g.out_edges.len() == self.out_edges@.len());
        }
        let list: &Vec<usize> = &self.out_edges[v];
        assert(list@ == outs);
        let mut k: usize = 0;
        while k < list.len()
            invariant
                self@.valid(),
                g == self@,
                v < self.vertices@.len(),
                list@ == outs,
                outs == g.out_edges[v as int],
                graph::all_below(outs, g.edges.len()),
                forall|j: int| 0 <= j < outs.len() ==> g.edges[#[trigger] outs[j] as int].from == v,
                forall|e: int| #[trigger] g.propagates(e) && g.edges[e].from == v ==> g.edges[e].to != v,
                k <= outs.len(),
                0 <= i < self.vertices@.len(),
                level@.len() == self.vertices@.len(),
                level@[v as int] <= i,
                forall|w: int| 0 <= w < level@.len() ==> (#[trigger] level@[w]) <= i + 1,
                raised(g, v as int, k as int, level_views(level@)) == all,
            decreases outs.len() - k,
        {
            let e: usize = list[k];
            assert(outs[k as int] < g.edges.len());
            assert(g.edge_valid(g.edges[e as int]));
            let to: usize = self.edges[e].to;
            assert(g.propagates(e as int) ==> to != v);
            if !self.is_check(e) && level[to] <= level[v] {
                let ghost before = level_views(level@);
                level.set(to, level[v] + 1);
                assert(level_views(level@) =~= before.update(to as int, before[v as int] + 1));
            }
            k = k + 1;
        }
    }

    /// The level of every vertex.
    pub(crate) fn find_levels(&self) -> (r: Vec<usize>)
        requires
            self@.valid(),
        ensures
            level_views(r@) == levels(self@),
    {
        let ghost g = self@;
        let n: usize = self.vertices.len();
        let mut level: Vec<usize> = Vec::new();
        let mut i: usize = 0;
        while i < n
            invariant
                i <= n,
                level@.len() == i,
                forall|w: int| 0 <= w < level@.len() ==> (#[trigger] level@[w]) == 0,
            decreases n - i,
        {
            level.push(0);
            i = i + 1;
        }
        assert(level_views(level@) =~= ground(g));
        let order: Vec<usize> = match self.topo_order() {
            Ok(order) => order,
            Err(_) => {
                return level;
            },
        };
        let ghost all = raised_along(g, order@, 0, ground(g));
        let mut j: usize = 0;
        while j < order.len()
            invariant
                self@.valid(),
                g == self@,
                topology::topological(g, order@),
                j <= order@.len(),
                level@.len() == self.vertices@.len(),
                forall|w: int| 0 <= w < level@.len() ==> (#[trigger] level@[w]) <= j,
                raised_along(g, order@, j as int, level_views(level@)) == all,
            decreases order@.len() - j,
        {
            let v: usize = order[j];
            proof {
                assert forall|e: int| #[trigger] g.propagates(e) && g.edges[e].from == v implies g.edges[e].to
                    != v by {
                    lemma_later(g, order@, j as int, e);
                    let head = order@.take(j + 1);
                    assert(head[j as int] == v);
                }
            }
            self.raise(v, &mut level, Ghost(j as int));
            j = j + 1;
        }
        level
    }
}

} // verus!
