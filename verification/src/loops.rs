//! A resistor that closes a loop is ignored in both walks of a parasitic reduction.
//!
//! The first walk is depth first: it reaches every node once, so that a resistor is either walked
//! through or closes a loop, never both. The second walk goes through the same resistors, so that it
//! reaches every node that resistors connect to the driver, once.

use vstd::prelude::*;
use crate::float32::F32;
use crate::float64::F64;
use crate::parasitics;
use crate::parasitics::{Moments, NetworkView, NodePinsView, WalkView};
use crate::whole;

verus! {

/// A resistor between two nodes that ends on `node`.
spec fn ends_on(net: NetworkView, r: int, node: int) -> bool {
    &&& 0 <= r < net.resistors.len()
    &&& net.resistors[r].0 != net.resistors[r].1
    &&& net.resistors[r].0 == node || net.resistors[r].1 == node
}

/// Two nodes that a resistor joins.
pub open spec fn joined(net: NetworkView, a: int, b: int) -> bool {
    exists|q: int|
        0 <= q < net.resistors.len() && {
            ||| (#[trigger] net.resistors[q]).0 == a && net.resistors[q].1 == b
            ||| net.resistors[q].0 == b && net.resistors[q].1 == a
        }
}

/// A way from one node to another, each joined to the next.
pub open spec fn way(net: NetworkView, path: Seq<int>, a: int, b: int) -> bool {
    &&& path.len() > 0
    &&& path[0] == a
    &&& path.last() == b
    &&& forall|i: int, j: int| 0 <= i && j == i + 1 && j < path.len() ==> joined(net, #[trigger] path[i], #[trigger] path[j])
}

/// Two nodes that resistors connect.
pub open spec fn connected(net: NetworkView, a: int, b: int) -> bool {
    exists|path: Seq<int>| way(net, path, a, b)
}

proof fn lemma_connected_one_more(net: NetworkView, a: int, b: int, c: int)
    requires
        connected(net, a, b),
        joined(net, b, c),
    ensures
        connected(net, a, c),
{
    let path = choose|path: Seq<int>| way(net, path, a, b);
    let more = path.push(c);
    assert forall|i: int, j: int| 0 <= i && j == i + 1 && j < more.len() implies joined(
        net,
        #[trigger] more[i],
        #[trigger] more[j],
    ) by {
        assert(more[i] == path[i]);
        if j < path.len() {
            assert(more[j] == path[j]);
        }
    }
    assert(way(net, more, a, c));
}

/// The resistors of a node, each between two nodes once.
proof fn lemma_incident(resistors: Seq<(int, int, F32)>, node: int)
    ensures
        ({
            let list = parasitics::incident(resistors, node);
            &&& forall|k: int|
                0 <= k < list.len() ==> 0 <= #[trigger] list[k] < resistors.len() && (resistors[list[k]].0 == node
                    || resistors[list[k]].1 == node)
            &&& forall|r: int|
                0 <= r < resistors.len() && ((#[trigger] resistors[r]).0 == node || resistors[r].1 == node)
                    ==> list.contains(r)
            &&& forall|j: int, k: int|
                0 <= j < k < list.len() && #[trigger] list[j] == #[trigger] list[k] ==> resistors[list[j]].0
                    == resistors[list[j]].1
        }),
    decreases resistors.len(),
{
    if resistors.len() > 0 {
        let less = resistors.drop_last();
        let i = resistors.len() - 1;
        lemma_incident(less, node);
        let before = parasitics::incident(less, node);
        let list = parasitics::incident(resistors, node);
        assert forall|k: int| 0 <= k < list.len() implies 0 <= #[trigger] list[k] < resistors.len() && (
        resistors[list[k]].0 == node || resistors[list[k]].1 == node) by {
            if k < before.len() {
                assert(list[k] == before[k]);
                assert(less[before[k]] == resistors[before[k]]);
            }
        }
        assert forall|r: int|
            0 <= r < resistors.len() && ((#[trigger] resistors[r]).0 == node || resistors[r].1 == node) implies list.contains(
            r,
        ) by {
            if r < i {
                assert(less[r] == resistors[r]);
                assert(before.contains(r));
                let k = choose|k: int| 0 <= k < before.len() && before[k] == r;
                assert(list[k] == r);
            } else {
                assert(list[list.len() - 1] == i);
            }
        }
        assert forall|j: int, k: int|
            0 <= j < k < list.len() && #[trigger] list[j] == #[trigger] list[k] implies resistors[list[j]].0
            == resistors[list[j]].1 by {
            if k < before.len() {
                assert(list[j] == before[j] && list[k] == before[k]);
                assert(less[before[j]] == resistors[before[j]]);
            } else if j < before.len() {
                assert(list[j] == before[j]);
                assert(before[j] < less.len());
            }
        }
    }
}

/// How far a walk has come: the nodes on the way, the nodes it is done with, the resistors it went
/// through and those that close a loop. Every resistor of a node that is done was gone through or
/// closes a loop, and none does both.
spec fn on_the_way(
    net: NetworkView,
    visited: Seq<bool>,
    loops: Seq<bool>,
    done: Set<int>,
    used: Set<int>,
    from: Option<int>,
) -> bool {
    &&& net.valid()
    &&& visited.len() == net.len()
    &&& loops.len() == net.resistors.len()
    &&& forall|d: int| #[trigger] done.contains(d) ==> 0 <= d < visited.len() && !visited[d]
    &&& forall|q: int, d: int|
        #[trigger] done.contains(d) && #[trigger] ends_on(net, q, d) ==> loops[q] || used.contains(q)
    &&& forall|q: int|
        #[trigger] used.contains(q) ==> {
            &&& 0 <= q < loops.len()
            &&& !loops[q]
            &&& net.resistors[q].0 != net.resistors[q].1
            &&& from != Some(q) ==> {
                &&& visited[net.resistors[q].0] || done.contains(net.resistors[q].0)
                &&& visited[net.resistors[q].1] || done.contains(net.resistors[q].1)
            }
        }
}

/// What a walk goes on to: nothing done or used is lost, and no node on the way has a new resistor
/// gone through.
spec fn goes_on(
    net: NetworkView,
    visited: Seq<bool>,
    done: Set<int>,
    used: Set<int>,
    later: (Set<int>, Set<int>),
) -> bool {
    &&& done.subset_of(later.0)
    &&& used.subset_of(later.1)
    &&& forall|q: int, u: int|
        #[trigger] later.1.contains(q) && !used.contains(q) && 0 <= u < visited.len() && visited[u] ==> !#[trigger] ends_on(
            net,
            q,
            u,
        )
}

/// Loops that were found stay found.
spec fn grown(a: Seq<bool>, b: Seq<bool>) -> bool {
    a.len() == b.len() && forall|q: int| 0 <= q < a.len() && a[q] ==> #[trigger] b[q]
}

/// A node is on the way or done.
spec fn reached(visited: Seq<bool>, done: Set<int>, u: int) -> bool {
    0 <= u < visited.len() && (visited[u] || done.contains(u))
}

/// Every node that was reached is connected to the first, and every resistor that closes a loop
/// ends on nodes that were reached.
spec fn held(net: NetworkView, first: int, visited: Seq<bool>, loops: Seq<bool>, done: Set<int>) -> bool {
    &&& forall|u: int| #[trigger] reached(visited, done, u) ==> connected(net, first, u)
    &&& forall|q: int|
        0 <= q < loops.len() && #[trigger] loops[q] ==> reached(visited, done, net.resistors[q].0) && reached(
            visited,
            done,
            net.resistors[q].1,
        )
}

/// The nodes of a list are the loads among those reached, but the first, each once.
spec fn tells(pins: NodePinsView, first: int, visited: Seq<bool>, done: Set<int>, list: Seq<(int, F32)>) -> bool {
    &&& forall|i: int|
        0 <= i < list.len() ==> reached(visited, done, (#[trigger] list[i]).0) && pins.is_load[list[i].0] && list[i].0
            != first
    &&& forall|u: int|
        #[trigger] reached(visited, done, u) && pins.is_load[u] && u != first ==> parasitics::has_delay(list, u)
    &&& forall|i: int, j: int| 0 <= i < j < list.len() ==> (#[trigger] list[i]).0 != (#[trigger] list[j]).0
}

/// What the second walk makes of a list, where the loops `loops` are those the first walk found and
/// none of the resistors it went through.
spec fn told(
    pins: NodePinsView,
    first: int,
    visited: Seq<bool>,
    done: Set<int>,
    out: Seq<(int, F32)>,
    found: Seq<bool>,
    loops: Seq<bool>,
    later: (Set<int>, Set<int>),
    list: Seq<(int, F32)>,
) -> bool {
    grown(found, loops) && unmarked(later.1, loops) && tells(pins, first, visited, done, out) ==> tells(
        pins,
        first,
        visited,
        later.0,
        list,
    )
}

/// None of the resistors closes a loop.
spec fn unmarked(used: Set<int>, loops: Seq<bool>) -> bool {
    forall|q: int| #[trigger] used.contains(q) ==> !loops[q]
}

proof fn lemma_tells_alike(
    pins: NodePinsView,
    first: int,
    visited: Seq<bool>,
    done: Set<int>,
    now: Seq<bool>,
    later: Set<int>,
    list: Seq<(int, F32)>,
)
    requires
        tells(pins, first, visited, done, list),
        forall|u: int| #[trigger] reached(visited, done, u) <==> reached(now, later, u),
    ensures
        tells(pins, first, now, later, list),
{
    assert forall|i: int| 0 <= i < list.len() implies reached(now, later, (#[trigger] list[i]).0) by {
        assert(reached(visited, done, list[i].0));
    }
    assert forall|u: int| #[trigger] reached(now, later, u) && pins.is_load[u] && u != first implies parasitics::has_delay(
        list,
        u,
    ) by {
        assert(reached(visited, done, u));
    }
}

/// The list with a node that is reached now.
proof fn lemma_tells_one_more(
    pins: NodePinsView,
    first: int,
    visited: Seq<bool>,
    done: Set<int>,
    list: Seq<(int, F32)>,
    node: int,
    delay: F32,
)
    requires
        tells(pins, first, visited, done, list),
        0 <= node < visited.len(),
        !reached(visited, done, node),
    ensures
        tells(
            pins,
            first,
            visited.update(node, true),
            done,
            if node != first && pins.is_load[node] {
                list.push((node, delay))
            } else {
                list
            },
        ),
{
    let now = visited.update(node, true);
    let here = if node != first && pins.is_load[node] {
        list.push((node, delay))
    } else {
        list
    };
    assert forall|i: int| 0 <= i < here.len() implies reached(now, done, (#[trigger] here[i]).0)
        && pins.is_load[here[i].0] && here[i].0 != first by {
        if i < list.len() {
            assert(here[i] == list[i]);
            assert(reached(visited, done, list[i].0));
        }
    }
    assert forall|u: int| #[trigger] reached(now, done, u) && pins.is_load[u] && u != first implies parasitics::has_delay(
        here,
        u,
    ) by {
        if u == node {
            assert(here[list.len() as int].0 == u);
        } else {
            assert(reached(visited, done, u));
            let i = choose|i: int| 0 <= i < list.len() && (#[trigger] list[i]).0 == u;
            assert(here[i].0 == u);
        }
    }
    assert forall|i: int, j: int| 0 <= i < j < here.len() implies (#[trigger] here[i]).0 != (#[trigger] here[j]).0 by {
        assert(here[i] == list[i]);
        assert(reached(visited, done, list[i].0));
        if j < list.len() {
            assert(here[j] == list[j]);
        }
    }
}

/// The network with other ohms of one resistor.
pub open spec fn with_ohms(net: NetworkView, r: int, ohms: F32) -> NetworkView {
    NetworkView {
        resistors: net.resistors.update(r, (net.resistors[r].0, net.resistors[r].1, ohms)),
        ..net
    }
}

proof fn lemma_same_incident(a: Seq<(int, int, F32)>, b: Seq<(int, int, F32)>, node: int)
    requires
        a.len() == b.len(),
        forall|i: int| 0 <= i < a.len() ==> (#[trigger] a[i]).0 == b[i].0 && a[i].1 == b[i].1,
    ensures
        parasitics::incident(a, node) == parasitics::incident(b, node),
    decreases a.len(),
{
    if a.len() > 0 {
        let (x, y) = (a.drop_last(), b.drop_last());
        assert forall|i: int| 0 <= i < x.len() implies (#[trigger] x[i]).0 == y[i].0 && x[i].1 == y[i].1 by {
            assert(a[i].0 == b[i].0);
        }
        lemma_same_incident(x, y, node);
        assert(a[a.len() - 1].0 == b[a.len() - 1].0);
    }
}

/// A node's capacitance: its own and its pin's.
pub open spec fn capacitance(net: NetworkView, pins: NodePinsView, u: int) -> F64 {
    net.node_caps[u].widened() + pins.pin_cap[u].widened()
}

/// The nodes have these capacitances, whole numbers.
pub open spec fn weights(net: NetworkView, pins: NodePinsView, w: Seq<int>) -> bool {
    &&& w.len() == net.len()
    &&& forall|u: int| 0 <= u < w.len() ==> 0 <= #[trigger] w[u] && whole::whole(capacitance(net, pins, u), w[u])
}

/// What the nodes of a set weigh together.
pub open spec fn total(w: Seq<int>, set: Set<int>) -> int
    decreases w.len(),
{
    if w.len() == 0 {
        0
    } else {
        total(w.drop_last(), set) + if set.contains(w.len() - 1) {
            w.last()
        } else {
            0
        }
    }
}

proof fn lemma_total_grows(w: Seq<int>, a: Set<int>, b: Set<int>)
    requires
        a.subset_of(b),
        forall|u: int| 0 <= u < w.len() ==> 0 <= #[trigger] w[u],
    ensures
        0 <= total(w, a) <= total(w, b),
    decreases w.len(),
{
    if w.len() > 0 {
        let less = w.drop_last();
        assert forall|u: int| 0 <= u < less.len() implies 0 <= #[trigger] less[u] by {
            assert(w[u] == less[u]);
        }
        lemma_total_grows(less, a, b);
        assert(w[w.len() - 1] >= 0);
    }
}

proof fn lemma_total_with(w: Seq<int>, set: Set<int>, u: int)
    requires
        !set.contains(u),
        0 <= u,
    ensures
        total(w, set.insert(u)) == total(w, set) + if u < w.len() {
            w[u]
        } else {
            0
        },
    decreases w.len(),
{
    if w.len() > 0 {
        lemma_total_with(w.drop_last(), set, u);
    }
}

/// No nodes weigh nothing.
proof fn lemma_total_of_none(w: Seq<int>)
    ensures
        total(w, Set::empty()) == 0,
    decreases w.len(),
{
    if w.len() > 0 {
        lemma_total_of_none(w.drop_last());
    }
}

/// Two sets with the same nodes weigh the same.
proof fn lemma_total_alike(w: Seq<int>, a: Set<int>, b: Set<int>)
    requires
        forall|u: int| 0 <= u < w.len() ==> (#[trigger] a.contains(u) <==> b.contains(u)),
    ensures
        total(w, a) == total(w, b),
    decreases w.len(),
{
    if w.len() > 0 {
        lemma_total_alike(w.drop_last(), a, b);
    }
}

/// What a walk adds to a capacitance is what the nodes it is now done with weigh.
#[verifier::opaque]
spec fn weighs(
    net: NetworkView,
    pins: NodePinsView,
    w: Seq<int>,
    before: F64,
    done: Set<int>,
    after: F64,
    later: Set<int>,
) -> bool {
    let more = total(w, later) - total(w, done);
    weights(net, pins, w) ==> forall|n: int|
        0 <= n && #[trigger] whole::whole(before, n) && whole::few_bits(n + more) ==> whole::whole(after, n + more)
}

proof fn lemma_weighs_nothing(net: NetworkView, pins: NodePinsView, w: Seq<int>, x: F64, done: Set<int>)
    ensures
        weighs(net, pins, w, x, done, x, done),
{
    reveal(weighs);
}

proof fn lemma_weighs_with_node(
    net: NetworkView,
    pins: NodePinsView,
    w: Seq<int>,
    node: int,
    done: Set<int>,
    after: F64,
    inside: Set<int>,
)
    requires
        weighs(net, pins, w, capacitance(net, pins, node), done, after, inside),
        !inside.contains(node),
        0 <= node < net.len(),
    ensures
        weighs(net, pins, w, F64(0), done, after, inside.insert(node)),
{
    reveal(weighs);
    if weights(net, pins, w) {
        lemma_total_with(w, inside, node);
        let later = inside.insert(node);
        let more = total(w, later) - total(w, done);
        assert forall|n: int| 0 <= n && #[trigger] whole::whole(F64(0), n) && whole::few_bits(n + more) implies whole::whole(
            after,
            n + more,
        ) by {
            whole::lemma_zero_is_whole(F64(0));
            whole::lemma_one_whole(F64(0), 0, n);
            assert(w[node] >= 0);
            assert(whole::whole(capacitance(net, pins, node), w[node]));
        }
    }
}

proof fn lemma_weighs_both(
    net: NetworkView,
    pins: NodePinsView,
    w: Seq<int>,
    before: F64,
    done: Set<int>,
    branch: F64,
    inside: Set<int>,
    after: F64,
    later: Set<int>,
)
    requires
        weighs(net, pins, w, F64(0), done, branch, inside),
        weighs(net, pins, w, before + branch, inside, after, later),
        done.subset_of(inside),
        inside.subset_of(later),
    ensures
        weighs(net, pins, w, before, done, after, later),
{
    reveal(weighs);
    if weights(net, pins, w) {
        let (a, b, c) = (total(w, done), total(w, inside), total(w, later));
        lemma_total_grows(w, done, inside);
        lemma_total_grows(w, inside, later);
        assert forall|n: int|
            0 <= n && #[trigger] whole::whole(before, n) && whole::few_bits(n + (c - a)) implies whole::whole(
            after,
            n + (c - a),
        ) by {
            whole::lemma_zero_is_whole(F64(0));
            assert(whole::whole(branch, 0 + (b - a)));
            whole::lemma_sum(before, n, branch, b - a);
            assert(whole::whole(before + branch, n + (b - a)));
        }
    }
}

/// A walk from a node not yet reached, and what it leaves done and used; where it does not go
/// through resistor `r`, the ohms of `r` do not matter.
proof fn lemma_moments(
    net: NetworkView,
    r: int,
    ohms: F32,
    pins: NodePinsView,
    node: int,
    from: Option<int>,
    visited: Seq<bool>,
    s: WalkView,
    done: Set<int>,
    used: Set<int>,
    first: int,
    second: WalkView,
    elmore: F64,
    out: Seq<(int, F32)>,
    w: Seq<int>,
) -> (later: (Set<int>, Set<int>))
    requires
        0 <= r < net.resistors.len(),
        on_the_way(net, visited, s.loops, done, used, from),
        0 <= node < visited.len(),
        !visited[node],
        !done.contains(node),
        from matches Some(f) ==> used.contains(f) && ends_on(net, f, node),
        from matches Some(f) ==> {
            let far = net.other(f, node);
            0 <= far < visited.len() && visited[far]
        },
        held(net, first, visited, s.loops, done),
        connected(net, first, node),
        from is Some <==> node != first,
        from is Some ==> reached(visited, done, first),
    ensures
        ({
            let (m, t) = net.moments(pins, node, from, visited, s);
            &&& on_the_way(net, visited, t.loops, later.0, later.1, None)
            &&& goes_on(net, visited, done, used, later)
            &&& later.0.contains(node)
            &&& grown(s.loops, t.loops)
            &&& held(net, first, visited, t.loops, later.0)
            &&& told(
                pins,
                first,
                visited,
                done,
                out,
                t.loops,
                second.loops,
                later,
                net.delays(pins, second, node, from, elmore, visited, out),
            )
            &&& !later.1.contains(r) ==> with_ohms(net, r, ohms).moments(pins, node, from, visited, s) == (m, t)
            &&& weighs(net, pins, w, F64(0), done, m.y1, later.0)
        }),
    decreases parasitics::free(visited), 0int, 0int,
{
    parasitics::lemma_free(visited, node);
    let now = visited.update(node, true);
    let cap = net.node_caps[node].widened() + pins.pin_cap[node].widened();
    let start = Moments { y1: cap, y2: F64(0), y3: F64(0), cap };
    lemma_incident(net.resistors, node);
    let list = parasitics::incident(net.resistors, node);
    assert forall|q: int| #[trigger] used.contains(q) implies {
        &&& from != Some(q) ==> {
            &&& now[net.resistors[q].0] || done.contains(net.resistors[q].0)
            &&& now[net.resistors[q].1] || done.contains(net.resistors[q].1)
        }
    } by {
        assert(0 <= net.resistors[q].0 < visited.len() && 0 <= net.resistors[q].1 < visited.len());
    }
    assert(on_the_way(net, now, s.loops, done, used, None)) by {
        assert forall|q: int| #[trigger] used.contains(q) implies {
            &&& 0 <= q < s.loops.len()
            &&& !s.loops[q]
            &&& net.resistors[q].0 != net.resistors[q].1
            &&& now[net.resistors[q].0] || done.contains(net.resistors[q].0)
            &&& now[net.resistors[q].1] || done.contains(net.resistors[q].1)
        } by {
            assert(0 <= net.resistors[q].0 < visited.len() && 0 <= net.resistors[q].1 < visited.len());
        }
    }
    assert forall|j: int| 0 <= j < list.len() && used.contains(#[trigger] list[j]) implies from == Some(list[j]) by {
        let q = list[j];
        assert(net.resistors[q].0 == node || net.resistors[q].1 == node);
    }
    let here = if from is Some && pins.is_load[node] {
        out.push((node, elmore.narrowed()))
    } else {
        out
    };
    lemma_held_on_the_way(net, first, visited, s.loops, done, node);
    assert(reached(now, done, first));
    let inside = lemma_branches(
        net,
        r,
        ohms,
        pins,
        node,
        from,
        now,
        0,
        start,
        s,
        done,
        used,
        first,
        second,
        elmore,
        here,
        w,
    );
    let (m, t) = net.branch_moments(pins, node, from, now, 0, start, s);
    let later = (inside.0.insert(node), inside.1);
    assert(on_the_way(net, visited, t.loops, later.0, later.1, None)) by {
        assert forall|d: int| #[trigger] later.0.contains(d) implies 0 <= d < visited.len() && !visited[d] by {
            if d != node {
                assert(inside.0.contains(d));
            }
        }
        assert forall|q: int, d: int|
            #[trigger] later.0.contains(d) && #[trigger] ends_on(net, q, d) implies t.loops[q] || later.1.contains(
            q,
        ) by {
            if d == node {
                assert(net.resistors[q].0 == node || net.resistors[q].1 == node);
                assert(list.contains(q));
                let k = choose|k: int| 0 <= k < list.len() && list[k] == q;
                assert(settled_branch(net, t.loops, inside.1, list[k]));
            } else {
                assert(inside.0.contains(d));
            }
        }
        assert forall|q: int| #[trigger] later.1.contains(q) implies {
            &&& 0 <= q < t.loops.len()
            &&& !t.loops[q]
            &&& net.resistors[q].0 != net.resistors[q].1
            &&& visited[net.resistors[q].0] || later.0.contains(net.resistors[q].0)
            &&& visited[net.resistors[q].1] || later.0.contains(net.resistors[q].1)
        } by {
            assert(inside.1.contains(q));
            assert(0 <= net.resistors[q].0 < visited.len() && 0 <= net.resistors[q].1 < visited.len());
        }
    }
    assert(goes_on(net, visited, done, used, later)) by {
        assert forall|q: int, u: int|
            #[trigger] later.1.contains(q) && !used.contains(q) && 0 <= u < visited.len() && visited[u] implies
            !#[trigger] ends_on(net, q, u) by {
            assert(inside.1.contains(q));
            assert(now.update(node, false)[u]);
        }
    }
    lemma_held_when_done(net, first, visited, t.loops, inside.0, node);
    assert(!inside.0.contains(node));
    lemma_weighs_with_node(net, pins, w, node, done, m.y1, inside.0);
    let list = net.branch_delays(pins, second, node, from, elmore, now, 0, here);
    assert(told(pins, first, visited, done, out, t.loops, second.loops, later, list)) by {
        if grown(t.loops, second.loops) && unmarked(later.1, second.loops) && tells(pins, first, visited, done, out) {
            lemma_tells_one_more(pins, first, visited, done, out, node, elmore.narrowed());
            assert(tells(pins, first, now, inside.0, list));
            lemma_tells_alike(pins, first, now, inside.0, visited, later.0, list);
        }
    }
    later
}

proof fn lemma_held_on_the_way(
    net: NetworkView,
    first: int,
    visited: Seq<bool>,
    loops: Seq<bool>,
    done: Set<int>,
    node: int,
)
    requires
        held(net, first, visited, loops, done),
        0 <= node < visited.len(),
        connected(net, first, node),
    ensures
        held(net, first, visited.update(node, true), loops, done),
{
    let now = visited.update(node, true);
    assert forall|u: int| #[trigger] reached(now, done, u) implies connected(net, first, u) by {
        assert(u != node ==> reached(visited, done, u));
    }
    assert forall|q: int| 0 <= q < loops.len() && #[trigger] loops[q] implies reached(now, done, net.resistors[q].0)
        && reached(now, done, net.resistors[q].1) by {
        assert(reached(visited, done, net.resistors[q].0) && reached(visited, done, net.resistors[q].1));
    }
}

proof fn lemma_held_when_done(
    net: NetworkView,
    first: int,
    visited: Seq<bool>,
    loops: Seq<bool>,
    done: Set<int>,
    node: int,
)
    requires
        held(net, first, visited.update(node, true), loops, done),
        0 <= node < visited.len(),
    ensures
        held(net, first, visited, loops, done.insert(node)),
        forall|u: int| #[trigger] reached(visited.update(node, true), done, u) <==> reached(visited, done.insert(node), u),
{
    let now = visited.update(node, true);
    let later = done.insert(node);
    assert forall|u: int| #[trigger] reached(visited, later, u) implies connected(net, first, u) by {
        assert(reached(now, done, u));
    }
    assert forall|q: int| 0 <= q < loops.len() && #[trigger] loops[q] implies reached(visited, later, net.resistors[q].0)
        && reached(visited, later, net.resistors[q].1) by {
        assert(reached(now, done, net.resistors[q].0) && reached(now, done, net.resistors[q].1));
    }
}

/// A branch that was gone through, closes a loop, or goes back to its node.
spec fn settled_branch(net: NetworkView, loops: Seq<bool>, used: Set<int>, q: int) -> bool {
    loops[q] || used.contains(q) || net.resistors[q].0 == net.resistors[q].1
}

/// The branches of a node on the way from the `k`th on.
proof fn lemma_branches(
    net: NetworkView,
    r: int,
    ohms: F32,
    pins: NodePinsView,
    node: int,
    from: Option<int>,
    visited: Seq<bool>,
    k: nat,
    m: Moments,
    s: WalkView,
    done: Set<int>,
    used: Set<int>,
    first: int,
    second: WalkView,
    elmore: F64,
    out: Seq<(int, F32)>,
    w: Seq<int>,
) -> (later: (Set<int>, Set<int>))
    requires
        0 <= r < net.resistors.len(),
        on_the_way(net, visited, s.loops, done, used, None),
        0 <= node < visited.len(),
        visited[node],
        from matches Some(f) ==> used.contains(f) && ends_on(net, f, node),
        ({
            let list = parasitics::incident(net.resistors, node);
            &&& k <= list.len()
            &&& forall|j: int| k <= j < list.len() && used.contains(#[trigger] list[j]) ==> from == Some(list[j])
            &&& forall|j: int| 0 <= j < k ==> settled_branch(net, s.loops, used, #[trigger] list[j])
        }),
        held(net, first, visited, s.loops, done),
        reached(visited, done, first),
    ensures
        ({
            let list = parasitics::incident(net.resistors, node);
            let (n, t) = net.branch_moments(pins, node, from, visited, k, m, s);
            &&& on_the_way(net, visited, t.loops, later.0, later.1, None)
            &&& goes_on(net, visited.update(node, false), done, used, later)
            &&& grown(s.loops, t.loops)
            &&& forall|j: int| 0 <= j < list.len() ==> settled_branch(net, t.loops, later.1, #[trigger] list[j])
            &&& held(net, first, visited, t.loops, later.0)
            &&& told(
                pins,
                first,
                visited,
                done,
                out,
                t.loops,
                second.loops,
                later,
                net.branch_delays(pins, second, node, from, elmore, visited, k, out),
            )
            &&& !later.1.contains(r) ==> with_ohms(net, r, ohms).branch_moments(pins, node, from, visited, k, m, s)
                == (n, t)
            &&& weighs(net, pins, w, m.y1, done, n.y1, later.0)
        }),
    decreases parasitics::free(visited), 1int, parasitics::incident(net.resistors, node).len() - k,
{
    let list = parasitics::incident(net.resistors, node);
    let other_net = with_ohms(net, r, ohms);
    lemma_incident(net.resistors, node);
    lemma_same_incident(net.resistors, other_net.resistors, node);
    if k >= list.len() {
        lemma_weighs_nothing(net, pins, w, m.y1, done);
        (done, used)
    } else {
        let q = list[k as int];
        let other = net.other(q, node);
        assert(0 <= q < net.resistors.len());
        assert(0 <= net.resistors[q].0 < net.len() && 0 <= net.resistors[q].1 < net.len());
        assert(other_net.other(q, node) == other);
        if s.loops[q] || other == node || Some(q) == from {
            assert(settled_branch(net, s.loops, used, list[k as int]));
            let later = lemma_branches(
                net,
                r,
                ohms,
                pins,
                node,
                from,
                visited,
                k + 1,
                m,
                s,
                done,
                used,
                first,
                second,
                elmore,
                out,
                w,
            );
            let (_, t) = net.branch_moments(pins, node, from, visited, k + 1, m, s);
            if s.loops[q] && grown(t.loops, second.loops) {
                assert(t.loops[q]);
                assert(second.loops[q]);
            }
            later
        } else if visited[other] {
            assert(!used.contains(q));
            let t = WalkView { loops: s.loops.update(q, true), ..s };
            assert(on_the_way(net, visited, t.loops, done, used, None));
            assert forall|j: int| 0 <= j < k + 1 implies settled_branch(net, t.loops, used, #[trigger] list[j]) by {
                if j < k {
                    assert(settled_branch(net, s.loops, used, list[j]));
                }
            }
            assert(reached(visited, done, node) && reached(visited, done, other));
            assert(held(net, first, visited, t.loops, done)) by {
                assert forall|x: int| 0 <= x < t.loops.len() && #[trigger] t.loops[x] implies reached(
                    visited,
                    done,
                    net.resistors[x].0,
                ) && reached(visited, done, net.resistors[x].1) by {
                    if x != q {
                        assert(s.loops[x]);
                    }
                }
            }
            lemma_branches(
                net,
                r,
                ohms,
                pins,
                node,
                from,
                visited,
                k + 1,
                m,
                t,
                done,
                used,
                first,
                second,
                elmore,
                out,
                w,
            )
        } else {
            assert(!used.contains(q));
            assert(ends_on(net, q, node) && ends_on(net, q, other));
            assert(!done.contains(other));
            let more = used.insert(q);
            assert(on_the_way(net, visited, s.loops, done, more, Some(q)));
            assert(net.other(q, other) == node);
            assert(reached(visited, done, node));
            assert(joined(net, node, other));
            lemma_connected_one_more(net, first, node, other);
            assert(!reached(visited, done, other));
            let below = elmore + (net.resistors[q].2 * second.downstream[other]).widened();
            let inside = lemma_moments(
                net,
                r,
                ohms,
                pins,
                other,
                Some(q),
                visited,
                s,
                done,
                more,
                first,
                second,
                below,
                out,
                w,
            );
            let next = net.delays(pins, second, other, Some(q), below, visited, out);
            let (d, t) = net.moments(pins, other, Some(q), visited, s);
            assert forall|j: int| k + 1 <= j < list.len() && inside.1.contains(#[trigger] list[j]) implies from
                == Some(list[j]) by {
                let x = list[j];
                if x == q {
                    assert(list[k as int] == list[j]);
                } else if !used.contains(x) {
                    assert(inside.1.contains(x) && !more.contains(x));
                    assert(net.resistors[x].0 != net.resistors[x].1);
                    assert(ends_on(net, x, node));
                }
            }
            assert forall|j: int| 0 <= j < k + 1 implies settled_branch(net, t.loops, inside.1, #[trigger] list[j]) by {
                if j < k {
                    assert(settled_branch(net, s.loops, used, list[j]));
                    assert(0 <= list[j] < s.loops.len());
                }
            }
            if let Some(f) = from {
                assert(more.contains(f));
                assert(inside.1.contains(f));
            }
            assert(reached(visited, inside.0, first));
            let n = m.behind(net.resistors[q].2.widened(), d);
            let later = lemma_branches(
                net,
                r,
                ohms,
                pins,
                node,
                from,
                visited,
                k + 1,
                n,
                t,
                inside.0,
                inside.1,
                first,
                second,
                elmore,
                next,
                w,
            );
            let (fin, last) = net.branch_moments(pins, node, from, visited, k + 1, n, t);
            lemma_weighs_both(net, pins, w, m.y1, done, d.y1, inside.0, fin.y1, later.0);
            let list = net.branch_delays(pins, second, node, from, elmore, visited, k, out);
            assert(told(pins, first, visited, done, out, last.loops, second.loops, later, list)) by {
                if grown(last.loops, second.loops) && unmarked(later.1, second.loops) {
                    assert(more.contains(q) && inside.1.contains(q) && later.1.contains(q));
                    assert(!second.loops[q]);
                    assert(grown(t.loops, second.loops)) by {
                        assert forall|x: int| 0 <= x < t.loops.len() && t.loops[x] implies #[trigger] second.loops[x] by {
                            assert(last.loops[x]);
                        }
                    }
                    assert(unmarked(inside.1, second.loops)) by {
                        assert forall|x: int| #[trigger] inside.1.contains(x) implies !second.loops[x] by {
                            assert(later.1.contains(x));
                        }
                    }
                    assert(list == net.branch_delays(pins, second, node, from, elmore, visited, k + 1, next));
                }
            }
            let above = visited.update(node, false);
            assert(goes_on(net, above, done, used, later)) by {
                assert forall|x: int, u: int|
                    #[trigger] later.1.contains(x) && !used.contains(x) && 0 <= u < above.len() && above[u] implies
                    !#[trigger] ends_on(net, x, u) by {
                    assert(visited[u] && u != node);
                    if inside.1.contains(x) && x != q {
                        assert(!more.contains(x));
                    }
                }
            }
            if !later.1.contains(r) {
                assert(more.contains(q) && inside.1.contains(q) && later.1.contains(q));
                assert(!inside.1.contains(r));
                assert(other_net.resistors[q] == net.resistors[q]);
                assert(other_net.moments(pins, other, Some(q), visited, s) == (d, t));
                assert(other_net.branch_moments(pins, node, from, visited, k, m, s) == other_net.branch_moments(
                    pins,
                    node,
                    from,
                    visited,
                    k + 1,
                    n,
                    t,
                ));
            }
            later
        }
    }
}

/// The second walk does not go through a resistor that closes a loop.
proof fn lemma_delays(
    net: NetworkView,
    r: int,
    ohms: F32,
    pins: NodePinsView,
    s: WalkView,
    node: int,
    from: Option<int>,
    elmore: F64,
    visited: Seq<bool>,
    out: Seq<(int, F32)>,
)
    requires
        0 <= r < net.resistors.len(),
        s.loops[r],
    ensures
        with_ohms(net, r, ohms).delays(pins, s, node, from, elmore, visited, out) == net.delays(
            pins,
            s,
            node,
            from,
            elmore,
            visited,
            out,
        ),
    decreases parasitics::free(visited), 0int, 0int,
{
    if 0 <= node < visited.len() && !visited[node] {
        parasitics::lemma_free(visited, node);
        let here = if from is Some && pins.is_load[node] {
            out.push((node, elmore.narrowed()))
        } else {
            out
        };
        lemma_branch_delays(net, r, ohms, pins, s, node, from, elmore, visited.update(node, true), 0, here);
    }
}

proof fn lemma_branch_delays(
    net: NetworkView,
    r: int,
    ohms: F32,
    pins: NodePinsView,
    s: WalkView,
    node: int,
    from: Option<int>,
    elmore: F64,
    visited: Seq<bool>,
    k: nat,
    out: Seq<(int, F32)>,
)
    requires
        0 <= r < net.resistors.len(),
        s.loops[r],
    ensures
        with_ohms(net, r, ohms).branch_delays(pins, s, node, from, elmore, visited, k, out) == net.branch_delays(
            pins,
            s,
            node,
            from,
            elmore,
            visited,
            k,
            out,
        ),
    decreases parasitics::free(visited), 1int, parasitics::incident(net.resistors, node).len() - k,
{
    let list = parasitics::incident(net.resistors, node);
    let other_net = with_ohms(net, r, ohms);
    lemma_incident(net.resistors, node);
    lemma_same_incident(net.resistors, other_net.resistors, node);
    if k < list.len() {
        let q = list[k as int];
        assert(0 <= q < net.resistors.len());
        let other = net.other(q, node);
        assert(other_net.other(q, node) == other);
        if Some(q) != from && !visited[other] && !s.loops[q] {
            let below = elmore + (net.resistors[q].2 * s.downstream[other]).widened();
            assert(other_net.resistors[q] == net.resistors[q]);
            lemma_delays(net, r, ohms, pins, s, other, Some(q), below, visited, out);
            let next = net.delays(pins, s, other, Some(q), below, visited, out);
            lemma_branch_delays(net, r, ohms, pins, s, node, from, elmore, visited, k + 1, next);
        } else {
            lemma_branch_delays(net, r, ohms, pins, s, node, from, elmore, visited, k + 1, out);
        }
    }
}

proof fn lemma_held_at_first(net: NetworkView, driver: int)
    requires
        0 <= driver < net.len(),
    ensures
        held(net, driver, net.nothing_visited(), net.nothing_walked().loops, Set::empty()),
        connected(net, driver, driver),
{
    let path = seq![driver];
    assert(way(net, path, driver, driver));
}

/// A resistor that closes a loop is ignored in both walks: whatever its ohms, the pi model and the
/// Elmore delays are the same.
pub proof fn lemma_loop_resistor_ignored(net: NetworkView, r: int, ohms: F32, driver: int, pins: NodePinsView)
    requires
        net.valid(),
        0 <= driver < net.len(),
        0 <= r < net.resistors.len(),
        net.moments(pins, driver, None, net.nothing_visited(), net.nothing_walked()).1.loops[r],
    ensures
        with_ohms(net, r, ohms).reduced(driver, pins) == net.reduced(driver, pins),
{
    let visited = net.nothing_visited();
    let s = net.nothing_walked();
    let other_net = with_ohms(net, r, ohms);
    assert(other_net.nothing_visited() =~= visited);
    assert(other_net.nothing_walked() =~= s);
    assert(on_the_way(net, visited, s.loops, Set::empty(), Set::empty(), None));
    lemma_held_at_first(net, driver);
    let later = lemma_moments(
        net,
        r,
        ohms,
        pins,
        driver,
        None,
        visited,
        s,
        Set::empty(),
        Set::empty(),
        driver,
        s,
        F64(0),
        Seq::empty(),
        Seq::empty(),
    );
    let (_, t) = net.moments(pins, driver, None, visited, s);
    assert(!later.1.contains(r));
    lemma_delays(net, r, ohms, pins, t, driver, None, F64(0), visited, Seq::empty());
}

/// Whatever is connected to a node that is done is done.
proof fn lemma_done_is_connected(
    net: NetworkView,
    first: int,
    loops: Seq<bool>,
    done: Set<int>,
    used: Set<int>,
    path: Seq<int>,
    u: int,
)
    requires
        on_the_way(net, net.nothing_visited(), loops, done, used, None),
        held(net, first, net.nothing_visited(), loops, done),
        done.contains(first),
        way(net, path, first, u),
    ensures
        done.contains(u),
    decreases path.len(),
{
    if path.len() > 1 {
        let less = path.drop_last();
        let near = less.last();
        assert forall|i: int, j: int| 0 <= i && j == i + 1 && j < less.len() implies joined(
            net,
            #[trigger] less[i],
            #[trigger] less[j],
        ) by {
            assert(less[i] == path[i] && less[j] == path[j]);
        }
        lemma_done_is_connected(net, first, loops, done, used, less, near);
        assert(joined(net, path[path.len() - 2], path[path.len() - 1]));
        let q = choose|q: int|
            0 <= q < net.resistors.len() && {
                ||| (#[trigger] net.resistors[q]).0 == near && net.resistors[q].1 == u
                ||| net.resistors[q].0 == u && net.resistors[q].1 == near
            };
        if near != u {
            assert(done.contains(near) && ends_on(net, q, near));
            let none = net.nothing_visited();
            if loops[q] {
                assert(reached(none, done, net.resistors[q].0) && reached(none, done, net.resistors[q].1));
            } else {
                assert(used.contains(q));
            }
        }
    }
}

/// Elmore delays are kept for the loads of a network that resistors connect to the driver, but for
/// the driver itself, each once, and for no other node.
pub proof fn lemma_elmore_of_every_connected_load(net: NetworkView, driver: int, pins: NodePinsView)
    requires
        net.valid(),
        0 <= driver < net.len(),
    ensures
        ({
            let list = net.reduced(driver, pins).elmore;
            &&& forall|u: int|
                #[trigger] parasitics::has_delay(list, u) <==> 0 <= u < net.len() && u != driver && pins.is_load[u]
                    && connected(net, driver, u)
            &&& forall|i: int, j: int| 0 <= i < j < list.len() ==> (#[trigger] list[i]).0 != (#[trigger] list[j]).0
        }),
{
    let visited = net.nothing_visited();
    let s = net.nothing_walked();
    let (_, t) = net.moments(pins, driver, None, visited, s);
    let list = net.reduced(driver, pins).elmore;
    lemma_held_at_first(net, driver);
    let later = if net.resistors.len() > 0 {
        assert(on_the_way(net, visited, s.loops, Set::empty(), Set::empty(), None));
        let later = lemma_moments(
            net,
            0,
            F32(0),
            pins,
            driver,
            None,
            visited,
            s,
            Set::empty(),
            Set::empty(),
            driver,
            t,
            F64(0),
            Seq::empty(),
            Seq::empty(),
        );
        assert(tells(pins, driver, visited, Set::empty(), Seq::empty()));
        assert(grown(t.loops, t.loops));
        assert(unmarked(later.1, t.loops));
        later
    } else {
        (set![driver], Set::empty())
    };
    assert(tells(pins, driver, visited, later.0, list));
    assert forall|u: int| #[trigger] parasitics::has_delay(list, u) <==> 0 <= u < net.len() && u != driver
        && pins.is_load[u] && connected(net, driver, u) by {
        if parasitics::has_delay(list, u) {
            let i = choose|i: int| 0 <= i < list.len() && (#[trigger] list[i]).0 == u;
            assert(reached(visited, later.0, list[i].0));
        }
        if 0 <= u < net.len() && u != driver && pins.is_load[u] && connected(net, driver, u) {
            let path = choose|path: Seq<int>| way(net, path, driver, u);
            lemma_done_is_connected(net, driver, t.loops, later.0, later.1, path, u);
            assert(reached(visited, later.0, u));
        }
    }
}

/// The nodes that resistors connect to one.
pub open spec fn component(net: NetworkView, driver: int) -> Set<int> {
    Set::new(|u: int| 0 <= u < net.len() && connected(net, driver, u))
}

/// The first moment at the driver is the capacitance of every node that resistors connect to it,
/// each counted once: exactly so where the capacitances are whole numbers whose sum fits.
pub proof fn lemma_first_moment_counts_every_node(net: NetworkView, driver: int, pins: NodePinsView, w: Seq<int>)
    requires
        net.valid(),
        0 <= driver < net.len(),
        weights(net, pins, w),
        whole::few_bits(total(w, component(net, driver))),
    ensures
        ({
            let (m, t) = net.moments(pins, driver, None, net.nothing_visited(), net.nothing_walked());
            &&& whole::whole(m.y1, total(w, component(net, driver)))
            &&& t.downstream[driver] == m.cap.narrowed()
        }),
{
    let visited = net.nothing_visited();
    let s = net.nothing_walked();
    let none: Set<int> = Set::empty();
    let (m, t) = net.moments(pins, driver, None, visited, s);
    lemma_held_at_first(net, driver);
    let later = if net.resistors.len() > 0 {
        assert(on_the_way(net, visited, s.loops, none, none, None));
        lemma_moments(net, 0, F32(0), pins, driver, None, visited, s, none, none, driver, t, F64(0), Seq::empty(), w)
    } else {
        lemma_weighs_nothing(net, pins, w, capacitance(net, pins, driver), none);
        lemma_weighs_with_node(net, pins, w, driver, none, capacitance(net, pins, driver), none);
        (none.insert(driver), none)
    };
    assert(weighs(net, pins, w, F64(0), none, m.y1, later.0));
    assert forall|u: int| 0 <= u < w.len() implies (#[trigger] later.0.contains(u) <==> component(
        net,
        driver,
    ).contains(u)) by {
        if later.0.contains(u) {
            assert(reached(visited, later.0, u));
        }
        if connected(net, driver, u) {
            let path = choose|path: Seq<int>| way(net, path, driver, u);
            lemma_done_is_connected(net, driver, t.loops, later.0, later.1, path, u);
        }
    }
    lemma_total_alike(w, later.0, component(net, driver));
    lemma_total_of_none(w);
    lemma_total_grows(w, none, later.0);
    whole::lemma_zero_is_whole(F64(0));
    reveal(weighs);
    lemma_walk_keeps_lengths(net, pins, driver, None, visited, s);
}

/// A walk keeps the number of nodes it tells a capacitance of.
proof fn lemma_walk_keeps_lengths(
    net: NetworkView,
    pins: NodePinsView,
    node: int,
    from: Option<int>,
    visited: Seq<bool>,
    s: WalkView,
)
    requires
        visited.len() == s.downstream.len(),
    ensures
        net.moments(pins, node, from, visited, s).1.downstream.len() == s.downstream.len(),
        0 <= node < visited.len() && !visited[node] ==> net.moments(
            pins,
            node,
            from,
            visited,
            s,
        ).1.downstream[node] == net.moments(pins, node, from, visited, s).0.cap.narrowed(),
    decreases parasitics::free(visited), 0int, 0int,
{
    if 0 <= node < visited.len() && !visited[node] {
        parasitics::lemma_free(visited, node);
        let cap = net.node_caps[node].widened() + pins.pin_cap[node].widened();
        let start = Moments { y1: cap, y2: F64(0), y3: F64(0), cap };
        lemma_branches_keep_lengths(net, pins, node, from, visited.update(node, true), 0, start, s);
    }
}

proof fn lemma_branches_keep_lengths(
    net: NetworkView,
    pins: NodePinsView,
    node: int,
    from: Option<int>,
    visited: Seq<bool>,
    k: nat,
    m: Moments,
    s: WalkView,
)
    requires
        visited.len() == s.downstream.len(),
    ensures
        net.branch_moments(pins, node, from, visited, k, m, s).1.downstream.len() == s.downstream.len(),
    decreases parasitics::free(visited), 1int, parasitics::incident(net.resistors, node).len() - k,
{
    let branches = parasitics::incident(net.resistors, node);
    if k < branches.len() {
        let r = branches[k as int];
        let other = net.other(r, node);
        if s.loops[r] || other == node || Some(r) == from {
            lemma_branches_keep_lengths(net, pins, node, from, visited, k + 1, m, s);
        } else if visited[other] {
            let t = WalkView { loops: s.loops.update(r, true), ..s };
            lemma_branches_keep_lengths(net, pins, node, from, visited, k + 1, m, t);
        } else {
            let (d, t) = net.moments(pins, other, Some(r), visited, s);
            lemma_walk_keeps_lengths(net, pins, other, Some(r), visited, s);
            let n = m.behind(net.resistors[r].2.widened(), d);
            lemma_branches_keep_lengths(net, pins, node, from, visited, k + 1, n, t);
        }
    }
}

/// A way from the driver to a node: each step a resistor that closes no loop and the node at its
/// far end.
pub open spec fn leads(net: NetworkView, driver: int, steps: Seq<(int, int)>, node: int) -> bool
    decreases steps.len(),
{
    if steps.len() == 0 {
        node == driver
    } else {
        let (q, u) = steps.last();
        &&& u == node
        &&& 0 <= q < net.resistors.len()
        &&& net.resistors[q].0 == node || net.resistors[q].1 == node
        &&& leads(net, driver, steps.drop_last(), net.other(q, node))
    }
}

/// The delay along a way: the ohms of each resistor times the capacitance behind it, summed from the
/// driver on.
pub open spec fn delay_along(net: NetworkView, downstream: Seq<F32>, steps: Seq<(int, int)>) -> F64
    decreases steps.len(),
{
    if steps.len() == 0 {
        F64(0)
    } else {
        let (q, u) = steps.last();
        delay_along(net, downstream, steps.drop_last()) + (net.resistors[q].2 * downstream[u]).widened()
    }
}

/// A load's delay is that along a way from the driver.
pub open spec fn delay_of_a_way(net: NetworkView, driver: int, downstream: Seq<F32>, load: (int, F32)) -> bool {
    exists|steps: Seq<(int, int)>| #[trigger]
        leads(net, driver, steps, load.0) && load.1 == delay_along(net, downstream, steps).narrowed()
}

/// Every load's delay is that along a way from the driver.
pub open spec fn delays_of_ways(net: NetworkView, driver: int, downstream: Seq<F32>, list: Seq<(int, F32)>) -> bool {
    forall|i: int| 0 <= i < list.len() ==> delay_of_a_way(net, driver, downstream, #[trigger] list[i])
}

proof fn lemma_ways(
    net: NetworkView,
    driver: int,
    pins: NodePinsView,
    s: WalkView,
    node: int,
    from: Option<int>,
    elmore: F64,
    visited: Seq<bool>,
    out: Seq<(int, F32)>,
    steps: Seq<(int, int)>,
)
    requires
        leads(net, driver, steps, node),
        elmore == delay_along(net, s.downstream, steps),
        delays_of_ways(net, driver, s.downstream, out),
    ensures
        delays_of_ways(net, driver, s.downstream, net.delays(pins, s, node, from, elmore, visited, out)),
    decreases parasitics::free(visited), 0int, 0int,
{
    let here = if from is Some && pins.is_load[node] {
        out.push((node, elmore.narrowed()))
    } else {
        out
    };
    assert forall|i: int| 0 <= i < here.len() implies delay_of_a_way(net, driver, s.downstream, #[trigger] here[i]) by {
        if i < out.len() {
            assert(here[i] == out[i]);
        } else {
            assert(here[i] == (node, elmore.narrowed()));
            assert(leads(net, driver, steps, here[i].0));
        }
    }
    if 0 <= node < visited.len() && !visited[node] {
        parasitics::lemma_free(visited, node);
        lemma_branch_ways(net, driver, pins, s, node, from, elmore, visited.update(node, true), 0, here, steps);
    }
}

proof fn lemma_branch_ways(
    net: NetworkView,
    driver: int,
    pins: NodePinsView,
    s: WalkView,
    node: int,
    from: Option<int>,
    elmore: F64,
    visited: Seq<bool>,
    k: nat,
    out: Seq<(int, F32)>,
    steps: Seq<(int, int)>,
)
    requires
        leads(net, driver, steps, node),
        elmore == delay_along(net, s.downstream, steps),
        delays_of_ways(net, driver, s.downstream, out),
    ensures
        delays_of_ways(net, driver, s.downstream, net.branch_delays(pins, s, node, from, elmore, visited, k, out)),
    decreases parasitics::free(visited), 1int, parasitics::incident(net.resistors, node).len() - k,
{
    let branches = parasitics::incident(net.resistors, node);
    if k < branches.len() {
        let r = branches[k as int];
        let other = net.other(r, node);
        if Some(r) != from && !visited[other] && !s.loops[r] {
            let below = elmore + (net.resistors[r].2 * s.downstream[other]).widened();
            let next = net.delays(pins, s, other, Some(r), below, visited, out);
            let more = steps.push((r, other));
            lemma_incident(net.resistors, node);
            assert(more.drop_last() =~= steps);
            assert(more.last() == (r, other));
            assert(0 <= r < net.resistors.len());
            assert(net.other(r, other) == node);
            assert(leads(net, driver, more, other));
            lemma_ways(net, driver, pins, s, other, Some(r), below, visited, out, more);
            lemma_branch_ways(net, driver, pins, s, node, from, elmore, visited, k + 1, next, steps);
        } else {
            lemma_branch_ways(net, driver, pins, s, node, from, elmore, visited, k + 1, out, steps);
        }
    }
}

/// The Elmore delay of a load is summed along a way from the driver to it, and along nothing else:
/// at each resistor its ohms times the capacitance downstream of it.
pub proof fn lemma_elmore_along_a_way(net: NetworkView, driver: int, pins: NodePinsView)
    requires
        net.valid(),
        0 <= driver < net.len(),
    ensures
        ({
            let t = net.moments(pins, driver, None, net.nothing_visited(), net.nothing_walked()).1;
            delays_of_ways(net, driver, t.downstream, net.reduced(driver, pins).elmore)
        }),
{
    let t = net.moments(pins, driver, None, net.nothing_visited(), net.nothing_walked()).1;
    let steps: Seq<(int, int)> = Seq::empty();
    assert(leads(net, driver, steps, driver));
    lemma_ways(net, driver, pins, t, driver, None, F64(0), net.nothing_visited(), Seq::empty(), steps);
}

} // verus!
