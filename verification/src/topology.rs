//! The order in which times propagate.

use vstd::prelude::*;
use crate::graph;
use crate::graph::{Graph, GraphView};

verus! {

/// The propagating edges among the first `k` that end at `v`.
pub open spec fn in_degree(g: GraphView, v: int, k: int) -> nat
    decreases k,
{
    if k <= 0 {
        0
    } else {
        in_degree(g, v, k - 1) + if g.propagates(k - 1) && g.edges[k - 1].to == v {
            1nat
        } else {
            0
        }
    }
}

/// A state of the walk: the edges each vertex still waits for, the vertices that wait for none, the
/// vertices in order.
#[verifier::ext_equal]
pub struct Walk {
    pub waiting: Seq<nat>,
    pub ready: Seq<usize>,
    pub order: Seq<usize>,
}

/// The vertices from the last down to `v` that no edge propagates to.
pub open spec fn roots(g: GraphView, v: int) -> Seq<usize>
    decreases g.vertices.len() - v,
{
    if v < 0 || v >= g.vertices.len() {
        Seq::empty()
    } else if in_degree(g, v, g.edges.len() as int) == 0 {
        roots(g, v + 1).push(v as usize)
    } else {
        roots(g, v + 1)
    }
}

pub open spec fn start(g: GraphView) -> Walk {
    Walk {
        waiting: Seq::new(g.vertices.len(), |v: int| in_degree(g, v, g.edges.len() as int)),
        ready: roots(g, 0),
        order: Seq::empty(),
    }
}

/// The state with one edge walked: its target waits for one less.
pub open spec fn walk_edge(g: GraphView, e: int, s: Walk) -> Walk {
    let t = g.edges[e].to;
    let left = (s.waiting[t as int] - 1) as nat;
    if g.checks(e) {
        s
    } else {
        Walk {
            waiting: s.waiting.update(t as int, left),
            ready: if left == 0 {
                s.ready.push(t)
            } else {
                s.ready
            },
            ..s
        }
    }
}

/// The state with edges walked from the `k`th on.
pub open spec fn walk_edges(g: GraphView, edges: Seq<usize>, k: int, s: Walk) -> Walk
    decreases edges.len() - k,
{
    if k < 0 || k >= edges.len() {
        s
    } else {
        walk_edges(g, edges, k + 1, walk_edge(g, edges[k] as int, s))
    }
}

/// The state with the last ready vertex put in order.
pub open spec fn take_ready(s: Walk) -> Walk {
    Walk { ready: s.ready.drop_last(), order: s.order.push(s.ready.last()), ..s }
}

/// The state when no vertex is ready any more.
pub open spec fn walk(g: GraphView, s: Walk) -> Walk
    decreases g.vertices.len() - s.order.len(),
{
    if s.ready.len() == 0 || s.order.len() >= g.vertices.len() {
        s
    } else {
        proof {
            lemma_walk_edges_order(g, g.out_edges[s.ready.last() as int], 0, take_ready(s));
        }
        walk(g, walk_edges(g, g.out_edges[s.ready.last() as int], 0, take_ready(s)))
    }
}

/// Walking edges puts no vertex in order.
pub proof fn lemma_walk_edges_order(g: GraphView, edges: Seq<usize>, k: int, s: Walk)
    ensures
        walk_edges(g, edges, k, s).order == s.order,
    decreases edges.len() - k,
{
    if 0 <= k < edges.len() {
        lemma_walk_edges_order(g, edges, k + 1, walk_edge(g, edges[k] as int, s));
    }
}

/// The vertices in an order in which times propagate; none where the graph has a loop.
pub open spec fn order_of(g: GraphView) -> Option<Seq<usize>> {
    let s = walk(g, start(g));
    if s.order.len() == g.vertices.len() {
        Some(s.order)
    } else {
        None
    }
}

/// Every vertex is in the order once, and every propagating edge goes forward in it.
pub open spec fn topological(g: GraphView, order: Seq<usize>) -> bool {
    &&& order.len() == g.vertices.len()
    &&& order.no_duplicates()
    &&& graph::all_below(order, g.vertices.len())
    &&& forall|e: int, i: int|
        g.propagates(e) && 0 <= i < order.len() && #[trigger] order[i] == (#[trigger] g.edges[e]).to
            ==> order.take(i).contains(g.edges[e].from)
}

/// Vertices can be numbered so that every propagating edge goes to a greater number.
pub open spec fn ranked(g: GraphView, rank: spec_fn(usize) -> nat) -> bool {
    forall|e: int| #[trigger] g.propagates(e) ==> rank(g.edges[e].from) < rank(g.edges[e].to)
}

/// The edges that vertex `v` waits for.
spec fn awaited(g: GraphView, v: int, walked: Set<int>) -> Set<int> {
    Set::new(|e: int| g.propagates(e) && g.edges[e].to == v && !walked.contains(e))
}

proof fn lemma_awaited_finite(g: GraphView, v: int, walked: Set<int>)
    ensures
        awaited(g, v, walked).finite(),
{
    let all = vstd::set_lib::set_int_range(0, g.edges.len() as int);
    vstd::set_lib::lemma_int_range(0, g.edges.len() as int);
    assert(awaited(g, v, walked).subset_of(all));
    vstd::set_lib::lemma_len_subset(awaited(g, v, walked), all);
}

spec fn awaited_among(g: GraphView, v: int, k: int) -> Set<int> {
    Set::new(|e: int| g.propagates(e) && e < k && g.edges[e].to == v)
}

proof fn lemma_in_degree(g: GraphView, v: int, k: int)
    requires
        0 <= k <= g.edges.len(),
    ensures
        awaited_among(g, v, k).finite(),
        awaited_among(g, v, k).len() == in_degree(g, v, k),
    decreases k,
{
    if k == 0 {
        assert(awaited_among(g, v, k) =~= Set::<int>::empty());
    } else {
        lemma_in_degree(g, v, k - 1);
        if g.propagates(k - 1) && g.edges[k - 1].to == v {
            assert(awaited_among(g, v, k) =~= awaited_among(g, v, k - 1).insert(k - 1));
        } else {
            assert(awaited_among(g, v, k) =~= awaited_among(g, v, k - 1));
        }
    }
}

/// What holds throughout the walk, with `walked` the edges walked so far.
spec fn sound(g: GraphView, s: Walk, walked: Set<int>) -> bool {
    let n = g.vertices.len();
    let listed = s.order + s.ready;
    &&& s.waiting.len() == n
    &&& listed.no_duplicates()
    &&& graph::all_below(listed, n)
    &&& forall|v: int| 0 <= v < n ==> #[trigger] s.waiting[v] == awaited(g, v, walked).len()
    &&& forall|v: int| 0 <= v < n ==> (#[trigger] s.waiting[v] == 0 <==> listed.contains(v as usize))
    &&& forall|e: int| #[trigger] walked.contains(e) ==> g.propagates(e) && s.order.contains(g.edges[e].from)
    &&& forall|e: int, i: int|
        g.propagates(e) && 0 <= i < s.order.len() && #[trigger] s.order[i] == (#[trigger] g.edges[e]).to
            ==> s.order.take(i).contains(g.edges[e].from)
}

/// Every propagating edge of a vertex in order was walked.
spec fn settled(g: GraphView, s: Walk, walked: Set<int>) -> bool {
    forall|e: int| #[trigger] g.propagates(e) && s.order.contains(g.edges[e].from) ==> walked.contains(e)
}

proof fn lemma_walk_edge(g: GraphView, e: int, s: Walk, walked: Set<int>)
    requires
        g.valid(),
        sound(g, s, walked),
        0 <= e < g.edges.len(),
        !walked.contains(e),
        s.order.contains(g.edges[e].from),
    ensures
        g.propagates(e) ==> s.waiting[g.edges[e].to as int] > 0,
        sound(g, walk_edge(g, e, s), if g.propagates(e) { walked.insert(e) } else { walked }),
{
    if g.propagates(e) {
        assert(g.edge_valid(g.edges[e]));
        let t = g.edges[e].to;
        let next = walk_edge(g, e, s);
        let more = walked.insert(e);
        let listed = s.order + s.ready;
        let all = next.order + next.ready;
        lemma_awaited_finite(g, t as int, walked);
        assert(awaited(g, t as int, walked).contains(e));
        assert(awaited(g, t as int, more) =~= awaited(g, t as int, walked).remove(e));
        assert(s.waiting[t as int] > 0);
        assert(!listed.contains(t));
        assert forall|v: int| 0 <= v < g.vertices.len() implies #[trigger] next.waiting[v] == awaited(
            g,
            v,
            more,
        ).len() by {
            if v != t {
                assert(awaited(g, v, more) =~= awaited(g, v, walked));
                assert(s.waiting[v] == awaited(g, v, walked).len());
            }
        }
        if next.waiting[t as int] == 0 {
            assert(all =~= listed.push(t));
            assert(all[listed.len() as int] == t);
            assert forall|v: int| 0 <= v < g.vertices.len() implies (#[trigger] next.waiting[v] == 0
                <==> all.contains(v as usize)) by {
                if v != t {
                    assert(s.waiting[v] == 0 <==> listed.contains(v as usize));
                    if listed.contains(v as usize) {
                        let i = choose|i: int| 0 <= i < listed.len() && listed[i] == v as usize;
                        assert(all[i] == v as usize);
                    }
                }
            }
        } else {
            assert(all =~= listed);
            assert forall|v: int| 0 <= v < g.vertices.len() implies (#[trigger] next.waiting[v] == 0
                <==> all.contains(v as usize)) by {
                assert(s.waiting[v] == 0 <==> listed.contains(v as usize));
            }
        }
    }
}

proof fn lemma_take_ready(g: GraphView, s: Walk, walked: Set<int>)
    requires
        g.valid(),
        sound(g, s, walked),
        s.ready.len() > 0,
    ensures
        sound(g, take_ready(s), walked),
{
    let v = s.ready.last();
    let next = take_ready(s);
    let listed = s.order + s.ready;
    let all = next.order + next.ready;
    let m = s.order.len() as int;
    // The ready vertex moves from the end of one list to the end of the other.
    assert forall|i: int| 0 <= i < all.len() implies #[trigger] all[i] == (if i < m {
        listed[i]
    } else if i == m {
        listed[listed.len() - 1]
    } else {
        listed[i - 1]
    }) by {}
    assert(listed[listed.len() - 1] == v);
    assert forall|x: usize| all.contains(x) <==> listed.contains(x) by {
        if all.contains(x) {
            let i = choose|i: int| 0 <= i < all.len() && all[i] == x;
            if i < m {
                assert(listed[i] == x);
            } else if i == m {
                assert(listed[listed.len() - 1] == x);
            } else {
                assert(listed[i - 1] == x);
            }
        }
        if listed.contains(x) {
            let i = choose|i: int| 0 <= i < listed.len() && listed[i] == x;
            if i < m {
                assert(all[i] == x);
            } else if i == listed.len() - 1 {
                assert(all[m] == x);
            } else {
                assert(all[i + 1] == x);
            }
        }
    }
    assert(s.waiting[v as int] == 0) by {
        assert(listed.contains(v));
    }
    assert forall|e: int| #[trigger] walked.contains(e) implies next.order.contains(g.edges[e].from) by {
        let i = choose|i: int| 0 <= i < s.order.len() && s.order[i] == g.edges[e].from;
        assert(next.order[i] == g.edges[e].from);
    }
    assert forall|e: int, i: int|
        g.propagates(e) && 0 <= i < next.order.len() && #[trigger] next.order[i] == (#[trigger] g.edges[e]).to
            implies next.order.take(i).contains(g.edges[e].from) by {
        assert(next.order.take(i) =~= s.order.take(i));
        if i == m {
            lemma_awaited_finite(g, v as int, walked);
            assert(awaited(g, v as int, walked) =~= Set::<int>::empty());
            assert(!awaited(g, v as int, walked).contains(e));
            assert(walked.contains(e));
            assert(s.order.take(m) =~= s.order);
        } else {
            assert(s.order[i] == next.order[i]);
        }
    }
}

/// Walking the edges of the vertex last put in order leaves everything sound and settled.
proof fn lemma_walk_out(g: GraphView, k: int, s: Walk, walked: Set<int>) -> (all: Set<int>)
    requires
        g.valid(),
        s.order.len() > 0,
        sound(g, s, walked),
        ({
            let v = s.order.last();
            let outs = g.out_edges[v as int];
            &&& 0 <= k <= outs.len()
            &&& forall|e: int|
                #[trigger] g.propagates(e) && s.order.contains(g.edges[e].from) ==> walked.contains(e) || (
                g.edges[e].from == v && outs.skip(k).contains(e as usize))
            &&& forall|i: int| k <= i < outs.len() ==> !walked.contains(#[trigger] outs[i] as int)
        }),
    ensures
        ({
            let next = walk_edges(g, g.out_edges[s.order.last() as int], k, s);
            sound(g, next, all) && settled(g, next, all) && next.order == s.order
        }),
    decreases g.out_edges[s.order.last() as int].len() - k,
{
    let v = s.order.last();
    let outs = g.out_edges[v as int];
    assert((s.order + s.ready)[s.order.len() - 1] == v);
    assert(outs == graph::edges_at(g.edges, v as int, false));
    graph::lemma_edges_at(g.edges, v as int, false);
    if k >= outs.len() {
        assert(outs.skip(k) =~= Seq::<usize>::empty());
        walked
    } else {
        let e = outs[k] as int;
        assert(g.edges[e].from == v);
        assert(s.order.contains(v)) by {
            assert(s.order[s.order.len() - 1] == v);
        }
        lemma_walk_edge(g, e, s, walked);
        let next = walk_edge(g, e, s);
        let more = if g.propagates(e) {
            walked.insert(e)
        } else {
            walked
        };
        assert forall|f: int| #[trigger] g.propagates(f) && next.order.contains(g.edges[f].from) implies more.contains(
            f,
        ) || (g.edges[f].from == v && outs.skip(k + 1).contains(f as usize)) by {
            if !walked.contains(f) && f != e {
                let i = choose|i: int| 0 <= i < outs.skip(k).len() && outs.skip(k)[i] == f as usize;
                assert(outs.skip(k)[i] == outs[k + i]);
                assert(i != 0);
                assert(outs.skip(k + 1)[i - 1] == f as usize);
            }
        }
        assert forall|i: int| k + 1 <= i < outs.len() implies !more.contains(#[trigger] outs[i] as int) by {
            assert(outs[i] != outs[k]);
        }
        lemma_walk_out(g, k + 1, next, more)
    }
}

proof fn lemma_distinct_fit(s: Seq<usize>, n: nat)
    requires
        n <= usize::MAX,
        s.no_duplicates(),
        graph::all_below(s, n),
    ensures
        s.len() <= n,
        s.len() < n ==> exists|v: usize| v < n && !s.contains(v),
    decreases n,
{
    if n == 0 {
        if s.len() > 0 {
            assert(s[0] < n);
        }
    } else {
        let top = (n - 1) as usize;
        if s.contains(top) {
            let i = choose|i: int| 0 <= i < s.len() && s[i] == top;
            let rest = s.remove(i);
            assert forall|j: int| 0 <= j < rest.len() implies (#[trigger] rest[j]) < n - 1 by {
                let k = if j < i {
                    j
                } else {
                    j + 1
                };
                assert(rest[j] == s[k]);
                assert(s[k] != s[i]);
            }
            assert forall|a: int, b: int| 0 <= a < rest.len() && 0 <= b < rest.len() && a != b implies rest[a]
                != rest[b] by {
                let x = if a < i {
                    a
                } else {
                    a + 1
                };
                let y = if b < i {
                    b
                } else {
                    b + 1
                };
                assert(s[x] != s[y]);
            }
            lemma_distinct_fit(rest, (n - 1) as nat);
            if s.len() < n {
                let v = choose|v: usize| v < n - 1 && !rest.contains(v);
                if s.contains(v) {
                    let j = choose|j: int| 0 <= j < s.len() && s[j] == v;
                    assert(rest[if j < i { j } else { j - 1 }] == v);
                }
                assert(v < n && !s.contains(v));
            }
        } else {
            assert forall|j: int| 0 <= j < s.len() implies (#[trigger] s[j]) < n - 1 by {
                assert(s.contains(s[j]));
            }
            lemma_distinct_fit(s, (n - 1) as nat);
            assert(top < n && !s.contains(top));
        }
    }
}

proof fn lemma_start(g: GraphView)
    requires
        g.valid(),
    ensures
        sound(g, start(g), Set::empty()),
        settled(g, start(g), Set::empty()),
{
    let s = start(g);
    lemma_roots(g, 0);
    assert(s.order + s.ready =~= s.ready);
    assert forall|v: int| 0 <= v < g.vertices.len() implies #[trigger] s.waiting[v] == awaited(
        g,
        v,
        Set::empty(),
    ).len() by {
        lemma_in_degree(g, v, g.edges.len() as int);
        assert(awaited(g, v, Set::empty()) =~= awaited_among(g, v, g.edges.len() as int));
    }
}

proof fn lemma_roots(g: GraphView, v: int)
    requires
        g.vertices.len() <= usize::MAX,
        0 <= v <= g.vertices.len(),
    ensures
        roots(g, v).no_duplicates(),
        forall|i: int| 0 <= i < roots(g, v).len() ==> v <= #[trigger] roots(g, v)[i] < g.vertices.len(),
        forall|x: int|
            v <= x < g.vertices.len() ==> (#[trigger] in_degree(g, x, g.edges.len() as int) == 0 <==> roots(
                g,
                v,
            ).contains(x as usize)),
        forall|x: usize| roots(g, v).contains(x) ==> v <= x,
    decreases g.vertices.len() - v,
{
    if v < g.vertices.len() {
        lemma_roots(g, v + 1);
        let before = roots(g, v + 1);
        let all = roots(g, v);
        assert forall|x: int| v <= x < g.vertices.len() implies (#[trigger] in_degree(
            g,
            x,
            g.edges.len() as int,
        ) == 0 <==> all.contains(x as usize)) by {
            if x == v {
                if in_degree(g, v, g.edges.len() as int) == 0 {
                    assert(all[before.len() as int] == v as usize);
                }
            } else {
                if before.contains(x as usize) {
                    let i = choose|i: int| 0 <= i < before.len() && before[i] == x as usize;
                    assert(all[i] == x as usize);
                }
            }
        }
    }
}

/// The walk ends with no vertex ready and everything sound and settled.
proof fn lemma_walk(g: GraphView, s: Walk, walked: Set<int>) -> (all: Set<int>)
    requires
        g.valid(),
        sound(g, s, walked),
        settled(g, s, walked),
    ensures
        sound(g, walk(g, s), all),
        settled(g, walk(g, s), all),
        walk(g, s).ready.len() == 0,
    decreases g.vertices.len() - s.order.len(),
{
    lemma_distinct_fit(s.order + s.ready, g.vertices.len());
    if s.ready.len() == 0 {
        walked
    } else {
        let v = s.ready.last();
        let t = take_ready(s);
        let outs = g.out_edges[v as int];
        lemma_take_ready(g, s, walked);
        lemma_walk_edges_order(g, outs, 0, t);
        lemma_first_out(g, s, walked);
        let more = lemma_walk_out(g, 0, t, walked);
        lemma_walk(g, walk_edges(g, outs, 0, t), more)
    }
}

/// Before the edges of a vertex just put in order are walked, they are what is left to walk.
proof fn lemma_first_out(g: GraphView, s: Walk, walked: Set<int>)
    requires
        g.valid(),
        sound(g, s, walked),
        settled(g, s, walked),
        s.ready.len() > 0,
    ensures
        ({
            let v = s.ready.last();
            let outs = g.out_edges[v as int];
            &&& forall|e: int|
                #[trigger] g.propagates(e) && take_ready(s).order.contains(g.edges[e].from) ==> walked.contains(e)
                    || (g.edges[e].from == v && outs.skip(0).contains(e as usize))
            &&& forall|i: int| 0 <= i < outs.len() ==> !walked.contains(#[trigger] outs[i] as int)
        }),
{
    let v = s.ready.last();
    let outs = g.out_edges[v as int];
    let listed = s.order + s.ready;
    assert(listed[listed.len() - 1] == v);
    assert(outs == graph::edges_at(g.edges, v as int, false));
    graph::lemma_edges_at(g.edges, v as int, false);
    assert(outs.skip(0) =~= outs);
    assert(!s.order.contains(v)) by {
        if s.order.contains(v) {
            let i = choose|i: int| 0 <= i < s.order.len() && s.order[i] == v;
            assert(listed[i] == listed[listed.len() - 1]);
        }
    }
    assert forall|e: int| #[trigger] g.propagates(e) && take_ready(s).order.contains(g.edges[e].from)
        implies walked.contains(e) || (g.edges[e].from == v && outs.skip(0).contains(e as usize)) by {
        let order = take_ready(s).order;
        let i = choose|i: int| 0 <= i < order.len() && order[i] == g.edges[e].from;
        if i < s.order.len() {
            assert(s.order[i] == g.edges[e].from);
            assert(s.order.contains(g.edges[e].from));
        }
    }
    assert forall|i: int| 0 <= i < outs.len() implies !walked.contains(#[trigger] outs[i] as int) by {
        assert(g.edges[outs[i] as int].from == v);
    }
}

/// The order is topological: every vertex in it once, every edge but timing checks forward.
pub proof fn lemma_order_is_topological(g: GraphView)
    requires
        g.valid(),
    ensures
        order_of(g) matches Some(order) ==> topological(g, order),
{
    lemma_start(g);
    let all = lemma_walk(g, start(g), Set::empty());
    let s = walk(g, start(g));
    assert(s.order + s.ready =~= s.order);
}

/// There is an order exactly where the graph has no loop, that is where vertices can be numbered so
/// that every edge but timing checks goes to a greater number.
pub proof fn lemma_order_unless_loop(g: GraphView)
    requires
        g.valid(),
    ensures
        order_of(g) is Some <==> exists|rank: spec_fn(usize) -> nat| ranked(g, rank),
{
    lemma_start(g);
    let all = lemma_walk(g, start(g), Set::empty());
    let s = walk(g, start(g));
    assert(s.order + s.ready =~= s.order);
    if s.order.len() == g.vertices.len() {
        let rank = |v: usize| place_of(s.order, v);
        assert forall|e: int| #[trigger] g.propagates(e) implies rank(g.edges[e].from) < rank(g.edges[e].to) by {
            assert(g.edge_valid(g.edges[e]));
            let (u, v) = (g.edges[e].from, g.edges[e].to);
            lemma_all_placed(s.order, g.vertices.len(), v);
            let i = place_of(s.order, v);
            lemma_place(s.order, v);
            assert(s.order.take(i as int).contains(u));
            let j = choose|j: int| 0 <= j < i && s.order.take(i as int)[j] == u;
            assert(s.order[j] == u);
            lemma_place(s.order, u);
            assert(place_of(s.order, u) == j);
        }
        assert(ranked(g, rank));
    } else {
        lemma_distinct_fit(s.order, g.vertices.len());
        let v = choose|v: usize| v < g.vertices.len() && !s.order.contains(v);
        if exists|rank: spec_fn(usize) -> nat| ranked(g, rank) {
            let rank = choose|rank: spec_fn(usize) -> nat| ranked(g, rank);
            lemma_none_left(g, s, all, rank, v);
        }
    }
}

/// A vertex's place in an order without repetition.
pub open spec fn place_of(order: Seq<usize>, v: usize) -> nat {
    choose|i: nat| i < order.len() && order[i as int] == v
}

proof fn lemma_place(order: Seq<usize>, v: usize)
    requires
        order.contains(v),
    ensures
        place_of(order, v) < order.len(),
        order[place_of(order, v) as int] == v,
{
    let i = choose|i: int| 0 <= i < order.len() && order[i] == v;
    assert((i as nat) < order.len() && order[i as nat as int] == v);
}

/// A list of `n` distinct numbers below `n` holds them all.
pub proof fn lemma_all_placed(order: Seq<usize>, n: nat, v: usize)
    requires
        order.no_duplicates(),
        graph::all_below(order, n),
        order.len() == n,
        n <= usize::MAX,
        v < n,
    ensures
        order.contains(v),
{
    if !order.contains(v) {
        let more = order.push(v);
        assert(graph::all_below(more, n));
        assert(more.no_duplicates()) by {
            assert forall|a: int, b: int| 0 <= a < more.len() && 0 <= b < more.len() && a != b implies more[a]
                != more[b] by {
                if a < order.len() {
                    assert(order.contains(order[a]));
                }
                if b < order.len() {
                    assert(order.contains(order[b]));
                }
            }
        }
        lemma_distinct_fit(more, n);
    }
}

/// In a ranked graph no vertex is left out of the order: it would wait for one of a lower rank that
/// is left out too.
proof fn lemma_none_left(g: GraphView, s: Walk, walked: Set<int>, rank: spec_fn(usize) -> nat, v: usize)
    requires
        g.valid(),
        sound(g, s, walked),
        settled(g, s, walked),
        s.ready.len() == 0,
        ranked(g, rank),
        v < g.vertices.len(),
    ensures
        s.order.contains(v),
    decreases rank(v),
{
    if !s.order.contains(v) {
        assert(s.order + s.ready =~= s.order);
        assert(s.waiting[v as int] != 0);
        lemma_awaited_finite(g, v as int, walked);
        let waits = awaited(g, v as int, walked);
        assert(waits.len() > 0);
        let e = waits.choose();
        assert(waits.contains(e));
        assert(g.propagates(e));
        assert(g.edge_valid(g.edges[e]));
        lemma_none_left(g, s, walked, rank, g.edges[e].from);
    }
}

spec fn counts(v: Seq<usize>) -> Seq<nat> {
    Seq::new(v.len(), |i: int| v[i] as nat)
}

impl<'a> Graph<'a> {
    fn count_in_edges(&self) -> (r: Vec<usize>)
        requires
            self@.valid(),
        ensures
            counts(r@) == start(self@).waiting,
    {
        let ghost g = self@;
        let n: usize = self.vertices.len();
        let mut degree: Vec<usize> = Vec::new();
        let mut i: usize = 0;
        while i < n
            invariant
                i <= n,
                degree@.len() == i,
                forall|v: int| 0 <= v < i ==> #[trigger] degree@[v] == 0,
            decreases n - i,
        {
            degree.push(0);
            i = i + 1;
        }
        let mut e: usize = 0;
        while e < self.edges.len()
            invariant
                e <= self.edges@.len(),
                g == self@,
                g.valid(),
                degree@.len() == g.vertices.len(),
                forall|v: int|
                    0 <= v < degree@.len() ==> #[trigger] degree@[v] == in_degree(g, v, e as int) && degree@[v] <= e,
            decreases self.edges@.len() - e,
        {
            assert(g.edge_valid(g.edges[e as int]));
            if !self.is_check(e) {
                let t: usize = self.edges[e].to;
                let d: usize = degree[t];
                degree.set(t, d + 1);
            }
            e = e + 1;
        }
        assert(counts(degree@) =~= start(g).waiting);
        degree
    }

    /// The vertices in topological order over the propagating edges (every edge but timing checks).
    pub(crate) fn topo_order(&self) -> (r: Result<Vec<usize>, String>)
        requires
            self@.valid(),
        ensures
            match r {
                Ok(order) => order_of(self@) == Some(order@) && topological(self@, order@),
                Err(e) => order_of(self@) is None && e@ == "the timing graph has a loop — not modelled"@,
            },
    {
        let ghost g = self@;
        let n: usize = self.vertices.len();
        let mut degree: Vec<usize> = self.count_in_edges();
        let mut stack: Vec<usize> = Vec::new();
        let mut v: usize = n;
        assert(counts(degree@).len() == degree@.len());
        while v > 0
            invariant
                v <= n == g.vertices.len(),
                degree@.len() == n,
                counts(degree@) == start(g).waiting,
                stack@ == roots(g, v as int),
            decreases v,
        {
            v = v - 1;
            assert(counts(degree@)[v as int] == degree@[v as int]);
            if degree[v] == 0 {
                stack.push(v);
            }
        }
        let mut order: Vec<usize> = Vec::new();
        let ghost mut walked = Set::<int>::empty();
        let ghost mut s = start(g);
        proof {
            lemma_start(g);
            lemma_order_is_topological(g);
        }
        while stack.len() > 0
            invariant
                n == g.vertices.len(),
                g == self@,
                g.valid(),
                s == (Walk { waiting: counts(degree@), ready: stack@, order: order@ }),
                sound(g, s, walked),
                settled(g, s, walked),
                walk(g, s) == walk(g, start(g)),
            decreases n - order@.len(),
        {
            proof {
                lemma_distinct_fit(s.order + s.ready, n as nat);
                lemma_take_ready(g, s, walked);
                lemma_first_out(g, s, walked);
                assert((s.order + s.ready)[s.order.len() + s.ready.len() - 1] == s.ready.last());
            }
            let ghost before = s;
            let v: usize = match stack.pop() {
                Some(v) => v,
                None => {
                    assert(false);
                    0
                },
            };
            order.push(v);
            proof {
                s = take_ready(s);
            }
            let ghost taken = s;
            assert(g.out_edges.len() == self.out_edges@.len());
            let outs: &Vec<usize> = &self.out_edges[v];
            assert(outs@ == g.out_edges[v as int]);
            let mut k: usize = 0;
            while k < outs.len()
                invariant
                    g == self@,
                    g.valid(),
                    v < g.vertices.len(),
                    outs@ == g.out_edges[v as int],
                    k <= outs@.len(),
                    order@.len() > 0,
                    order@.last() == v,
                    order@ == taken.order,
                    s == (Walk { waiting: counts(degree@), ready: stack@, order: order@ }),
                    sound(g, s, walked),
                    walk_edges(g, outs@, k as int, s) == walk_edges(g, outs@, 0, taken),
                    forall|e: int|
                        #[trigger] g.propagates(e) && s.order.contains(g.edges[e].from) ==> walked.contains(e) || (
                        g.edges[e].from == v && outs@.skip(k as int).contains(e as usize)),
                    forall|i: int| k <= i < outs@.len() ==> !walked.contains(#[trigger] outs@[i] as int),
                decreases outs@.len() - k,
            {
                let e: usize = outs[k];
                proof {
                    graph::lemma_edges_at(g.edges, v as int, false);
                    assert(g.out_edges[v as int] == graph::edges_at(g.edges, v as int, false));
                    assert(g.edges[e as int].from == v);
                    assert(s.order[s.order.len() - 1] == v);
                    lemma_walk_edge(g, e as int, s, walked);
                    assert(g.edge_valid(g.edges[e as int]));
                }
                let ghost s0 = s;
                let ghost walked0 = walked;
                if !self.is_check(e) {
                    let t: usize = self.edges[e].to;
                    assert(counts(degree@)[t as int] == degree@[t as int]);
                    let d: usize = degree[t] - 1;
                    degree.set(t, d);
                    if d == 0 {
                        stack.push(t);
                    }
                    proof {
                        walked = walked.insert(e as int);
                        s = walk_edge(g, e as int, s);
                        assert(counts(degree@) =~= s.waiting);
                    }
                }
                proof {
                    assert(s == walk_edge(g, e as int, s0));
                    assert forall|f: int| #[trigger] g.propagates(f) && s.order.contains(g.edges[f].from)
                        implies walked.contains(f) || (g.edges[f].from == v && outs@.skip(k + 1).contains(
                        f as usize,
                    )) by {
                        if !walked0.contains(f) && f != e {
                            let i = choose|i: int|
                                0 <= i < outs@.skip(k as int).len() && outs@.skip(k as int)[i] == f as usize;
                            assert(outs@.skip(k as int)[i] == outs@[k + i]);
                            assert(i != 0);
                            assert(outs@.skip(k + 1)[i - 1] == f as usize);
                        }
                    }
                    assert forall|i: int| k + 1 <= i < outs@.len() implies !walked.contains(
                        #[trigger] outs@[i] as int,
                    ) by {
                        assert(outs@[i] != outs@[k as int]);
                    }
                }
                k = k + 1;
            }
            assert(outs@.skip(k as int) =~= Seq::<usize>::empty());
            assert(s == walk_edges(g, outs@, 0, taken));
        }
        if order.len() != n {
            return Err("the timing graph has a loop — not modelled".to_owned());
        }
        Ok(order)
    }
}

} // verus!
