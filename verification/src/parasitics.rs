//! Parasitic reduction: an RC network to the driving-point pi model (`c2`, `rpi`, `c1`) and each
//! load's Elmore delay (O'Brien and Savarino, DAC 1989).

use vstd::prelude::*;
use crate::float32::F32;
use crate::float64::F64;

verus! {

/// 2.0.
pub const TWO: u64 = 0x4000_0000_0000_0000;

/// An RC network as built for one net: ground capacitance per node and resistors, each list in
/// creation order (the order the reduction walks them in).
#[derive(Debug, PartialEq)]
pub struct Network {
    /// Ground capacitance per node.
    pub node_caps: Vec<F32>,
    /// `(n1, n2, ohms)`, in creation order.
    pub resistors: Vec<(usize, usize, F32)>,
}

/// What an RC network holds.
#[verifier::ext_equal]
pub struct NetworkView {
    pub node_caps: Seq<F32>,
    pub resistors: Seq<(int, int, F32)>,
}

impl View for Network {
    type V = NetworkView;

    open spec fn view(&self) -> NetworkView {
        NetworkView {
            node_caps: self.node_caps@,
            resistors: Seq::new(
                self.resistors@.len(),
                |i: int|
                    (self.resistors@[i].0 as int, self.resistors@[i].1 as int, self.resistors@[i].2),
            ),
        }
    }
}

impl Clone for Network {
    fn clone(&self) -> (r: Network)
        ensures
            r@ == self@,
    {
        let node_caps: Vec<F32> = self.node_caps.clone();
        assert(node_caps@ =~= self.node_caps@);
        let mut resistors: Vec<(usize, usize, F32)> = Vec::new();
        let mut i: usize = 0;
        while i < self.resistors.len()
            invariant
                i <= self.resistors@.len(),
                resistors@ == self.resistors@.take(i as int),
            decreases self.resistors@.len() - i,
        {
            resistors.push(self.resistors[i]);
            assert(resistors@ =~= self.resistors@.take(i + 1));
            i = i + 1;
        }
        assert(resistors@ =~= self.resistors@);
        Network { node_caps, resistors }
    }
}

impl Default for Network {
    fn default() -> (r: Network)
        ensures
            r@.node_caps.len() == 0,
            r@.resistors.len() == 0,
    {
        Network { node_caps: Vec::new(), resistors: Vec::new() }
    }
}

/// The reduced model of one driver: the pi model and every load's Elmore delay, `(node, delay)`
/// in the order the second walk reaches the loads.
#[derive(Debug, PartialEq)]
pub struct PiElmore {
    pub c2: F32,
    pub rpi: F32,
    pub c1: F32,
    pub elmore: Vec<(usize, F32)>,
}

/// What a reduced model holds.
#[verifier::ext_equal]
pub struct PiElmoreView {
    pub c2: F32,
    pub rpi: F32,
    pub c1: F32,
    pub elmore: Seq<(int, F32)>,
}

pub open spec fn delay_views(v: Seq<(usize, F32)>) -> Seq<(int, F32)> {
    Seq::new(v.len(), |i: int| (v[i].0 as int, v[i].1))
}

/// A list of delays holds one for a node.
pub open spec fn has_delay(delays: Seq<(int, F32)>, node: int) -> bool {
    exists|i: int| 0 <= i < delays.len() && (#[trigger] delays[i]).0 == node
}

impl View for PiElmore {
    type V = PiElmoreView;

    open spec fn view(&self) -> PiElmoreView {
        PiElmoreView { c2: self.c2, rpi: self.rpi, c1: self.c1, elmore: delay_views(self.elmore@) }
    }
}

impl Clone for PiElmore {
    fn clone(&self) -> (r: PiElmore)
        ensures
            r@ == self@,
    {
        let mut elmore: Vec<(usize, F32)> = Vec::new();
        let mut i: usize = 0;
        while i < self.elmore.len()
            invariant
                i <= self.elmore@.len(),
                elmore@ == self.elmore@.take(i as int),
            decreases self.elmore@.len() - i,
        {
            elmore.push(self.elmore[i]);
            assert(elmore@ =~= self.elmore@.take(i + 1));
            i = i + 1;
        }
        assert(elmore@ =~= self.elmore@);
        PiElmore { c2: self.c2, rpi: self.rpi, c1: self.c1, elmore }
    }
}

/// What each node is to the reduction: the pin capacitance it adds (a liberty port's for the
/// transition, a top-level port's external load; 0 without a pin, or when the network already
/// includes pin caps), and whether it is a load pin (Elmore delays are kept for those).
#[derive(Debug, PartialEq)]
pub struct NodePins {
    pub pin_cap: Vec<F32>,
    pub is_load: Vec<bool>,
}

/// What the pins of a network are.
#[verifier::ext_equal]
pub struct NodePinsView {
    pub pin_cap: Seq<F32>,
    pub is_load: Seq<bool>,
}

impl View for NodePins {
    type V = NodePinsView;

    open spec fn view(&self) -> NodePinsView {
        NodePinsView { pin_cap: self.pin_cap@, is_load: self.is_load@ }
    }
}

/// The places that are not set.
pub open spec fn free(visited: Seq<bool>) -> nat
    decreases visited.len(),
{
    if visited.len() == 0 {
        0
    } else {
        free(visited.drop_last()) + if visited.last() {
            0nat
        } else {
            1
        }
    }
}

/// Visiting a node leaves one less to visit.
pub proof fn lemma_free(visited: Seq<bool>, i: int)
    requires
        0 <= i < visited.len(),
        !visited[i],
    ensures
        free(visited.update(i, true)) + 1 == free(visited),
    decreases visited.len(),
{
    if i == visited.len() - 1 {
        assert(visited.update(i, true).drop_last() =~= visited.drop_last());
    } else {
        lemma_free(visited.drop_last(), i);
        assert(visited.update(i, true).drop_last() =~= visited.drop_last().update(i, true));
    }
}

/// The admittance moments below a node and its downstream capacitance.
#[derive(Debug, Clone, Copy)]
pub struct Moments {
    pub y1: F64,
    pub y2: F64,
    pub y3: F64,
    pub cap: F64,
}

impl Moments {
    /// With a branch of moments `d` behind a resistor: rules 3 and 4.
    pub open spec fn behind(self, res: F64, d: Moments) -> Moments {
        Moments {
            y1: self.y1 + d.y1,
            y2: self.y2 + (d.y2 - res * d.y1 * d.y1),
            y3: self.y3 + (d.y3 - F64(TWO) * res * d.y1 * d.y2 + res * res * d.y1 * d.y1 * d.y1),
            cap: self.cap + d.cap,
        }
    }

    fn join(self, res: F64, d: Moments) -> (r: Moments)
        ensures
            r == self.behind(res, d),
    {
        Moments {
            y1: self.y1 + d.y1,
            y2: self.y2 + (d.y2 - res * d.y1 * d.y1),
            y3: self.y3 + (d.y3 - F64(TWO) * res * d.y1 * d.y2 + res * res * d.y1 * d.y1 * d.y1),
            cap: self.cap + d.cap,
        }
    }
}

/// The resistors of a node in creation order, one back to the node itself twice.
pub open spec fn incident(resistors: Seq<(int, int, F32)>, node: int) -> Seq<int>
    decreases resistors.len(),
{
    if resistors.len() == 0 {
        Seq::empty()
    } else {
        let i = resistors.len() - 1;
        let before = incident(resistors.drop_last(), node);
        let first = if resistors[i].0 == node {
            before.push(i)
        } else {
            before
        };
        if resistors[i].1 == node {
            first.push(i)
        } else {
            first
        }
    }
}

/// What the first walk leaves behind: the resistors that close a loop, and each node's downstream
/// capacitance.
#[verifier::ext_equal]
pub struct WalkView {
    pub loops: Seq<bool>,
    pub downstream: Seq<F32>,
}

impl NetworkView {
    pub open spec fn len(self) -> nat {
        self.node_caps.len()
    }

    /// Every resistor ends on nodes of the network.
    pub open spec fn valid(self) -> bool {
        forall|i: int|
            0 <= i < self.resistors.len() ==> 0 <= (#[trigger] self.resistors[i]).0 < self.len() && 0
                <= self.resistors[i].1 < self.len()
    }

    /// The far end of a resistor.
    pub open spec fn other(self, r: int, node: int) -> int {
        if node == self.resistors[r].0 {
            self.resistors[r].1
        } else {
            self.resistors[r].0
        }
    }

    /// The moments below `node`, reached over `from` with `visited` the path so far.
    pub open spec fn moments(
        self,
        pins: NodePinsView,
        node: int,
        from: Option<int>,
        visited: Seq<bool>,
        s: WalkView,
    ) -> (Moments, WalkView)
        decreases free(visited), 0int, 0int,
    {
        let cap = self.node_caps[node].widened() + pins.pin_cap[node].widened();
        let start = Moments { y1: cap, y2: F64(0), y3: F64(0), cap };
        if !(0 <= node < visited.len()) || visited[node] {
            (start, s)
        } else {
            proof {
                lemma_free(visited, node);
            }
            let (m, t) = self.branch_moments(pins, node, from, visited.update(node, true), 0, start, s);
            (m, WalkView { downstream: t.downstream.update(node, m.cap.narrowed()), ..t })
        }
    }

    /// The moments `m` with the branches of `node` from the `k`th on: a resistor that closes a loop
    /// is marked, one that did, one back to the node and the one arrived by are skipped.
    pub open spec fn branch_moments(
        self,
        pins: NodePinsView,
        node: int,
        from: Option<int>,
        visited: Seq<bool>,
        k: nat,
        m: Moments,
        s: WalkView,
    ) -> (Moments, WalkView)
        decreases free(visited), 1int, incident(self.resistors, node).len() - k,
    {
        let branches = incident(self.resistors, node);
        if k >= branches.len() {
            (m, s)
        } else {
            let r = branches[k as int];
            let other = self.other(r, node);
            if s.loops[r] || other == node || Some(r) == from {
                self.branch_moments(pins, node, from, visited, k + 1, m, s)
            } else if visited[other] {
                self.branch_moments(
                    pins,
                    node,
                    from,
                    visited,
                    k + 1,
                    m,
                    WalkView { loops: s.loops.update(r, true), ..s },
                )
            } else {
                let (d, t) = self.moments(pins, other, Some(r), visited, s);
                self.branch_moments(
                    pins,
                    node,
                    from,
                    visited,
                    k + 1,
                    m.behind(self.resistors[r].2.widened(), d),
                    t,
                )
            }
        }
    }

    /// The Elmore delays of the loads below `node`, reached over `from` with the delay `elmore`,
    /// behind `out`.
    pub open spec fn delays(
        self,
        pins: NodePinsView,
        s: WalkView,
        node: int,
        from: Option<int>,
        elmore: F64,
        visited: Seq<bool>,
        out: Seq<(int, F32)>,
    ) -> Seq<(int, F32)>
        decreases free(visited), 0int, 0int,
    {
        let here = if from is Some && pins.is_load[node] {
            out.push((node, elmore.narrowed()))
        } else {
            out
        };
        if !(0 <= node < visited.len()) || visited[node] {
            here
        } else {
            proof {
                lemma_free(visited, node);
            }
            self.branch_delays(pins, s, node, from, elmore, visited.update(node, true), 0, here)
        }
    }

    /// The Elmore delays below `node` over its branches from the `k`th on, behind `out`.
    pub open spec fn branch_delays(
        self,
        pins: NodePinsView,
        s: WalkView,
        node: int,
        from: Option<int>,
        elmore: F64,
        visited: Seq<bool>,
        k: nat,
        out: Seq<(int, F32)>,
    ) -> Seq<(int, F32)>
        decreases free(visited), 1int, incident(self.resistors, node).len() - k,
    {
        let branches = incident(self.resistors, node);
        if k >= branches.len() {
            out
        } else {
            let r = branches[k as int];
            let other = self.other(r, node);
            if Some(r) != from && !visited[other] && !s.loops[r] {
                let below = elmore + (self.resistors[r].2 * s.downstream[other]).widened();
                self.branch_delays(
                    pins,
                    s,
                    node,
                    from,
                    elmore,
                    visited,
                    k + 1,
                    self.delays(pins, s, other, Some(r), below, visited, out),
                )
            } else {
                self.branch_delays(pins, s, node, from, elmore, visited, k + 1, out)
            }
        }
    }

    pub open spec fn nothing_walked(self) -> WalkView {
        WalkView {
            loops: Seq::new(self.resistors.len(), |i: int| false),
            downstream: Seq::new(self.len(), |i: int| F32(0)),
        }
    }

    pub open spec fn nothing_visited(self) -> Seq<bool> {
        Seq::new(self.len(), |i: int| false)
    }

    /// The pi model and Elmore delays seen from a driver.
    pub open spec fn reduced(self, driver: int, pins: NodePinsView) -> PiElmoreView {
        let (m, s) = self.moments(pins, driver, None, self.nothing_visited(), self.nothing_walked());
        let capacitive = m.y2.is_eq(F64(0)) && m.y3.is_eq(F64(0));
        PiElmoreView {
            c2: if capacitive {
                F32(0)
            } else {
                (m.y1 - m.y2 * m.y2 / m.y3).narrowed()
            },
            rpi: if capacitive {
                F32(0)
            } else {
                (-m.y3 * m.y3 / (m.y2 * m.y2 * m.y2)).narrowed()
            },
            c1: if capacitive {
                m.y1.narrowed()
            } else {
                (m.y2 * m.y2 / m.y3).narrowed()
            },
            elmore: self.delays(pins, s, driver, None, F64(0), self.nothing_visited(), Seq::empty()),
        }
    }
}

struct Walk<'a> {
    net: &'a Network,
    pins: &'a NodePins,
    adjacency: Vec<Vec<usize>>,
    visited: Vec<bool>,
    loops: Vec<bool>,
    /// Each node's downstream capacitance.
    downstream: Vec<F32>,
}

spec fn places(v: Seq<usize>) -> Seq<int> {
    Seq::new(v.len(), |i: int| v[i] as int)
}

spec fn resistor_of(r: Option<usize>) -> Option<int> {
    match r {
        Some(r) => Some(r as int),
        None => None,
    }
}

impl<'a> Walk<'a> {
    spec fn valid(self) -> bool {
        let n = self.net@.len();
        &&& self.net@.valid()
        &&& self.pins.pin_cap@.len() == n
        &&& self.pins.is_load@.len() == n
        &&& self.visited@.len() == n
        &&& self.downstream@.len() == n
        &&& self.adjacency@.len() == n
        &&& self.loops@.len() == self.net@.resistors.len()
        &&& forall|i: int|
            0 <= i < n ==> places((#[trigger] self.adjacency@[i])@) == incident(self.net@.resistors, i)
    }

    spec fn left(self) -> WalkView {
        WalkView { loops: self.loops@, downstream: self.downstream@ }
    }

    /// The same network, pins and adjacency.
    spec fn alike(self, o: Walk) -> bool {
        &&& self.net == o.net
        &&& self.pins == o.pins
        &&& self.adjacency == o.adjacency
    }

    fn other(&self, r: usize, node: usize) -> (o: usize)
        requires
            self.valid(),
            r < self.net@.resistors.len(),
        ensures
            o == self.net@.other(r as int, node as int),
            o < self.net@.len(),
    {
        let t: (usize, usize, F32) = self.net.resistors[r];
        assert(self.net@.resistors[r as int] == (t.0 as int, t.1 as int, t.2));
        if node == t.0 {
            t.1
        } else {
            t.0
        }
    }

    /// The admittance moments and downstream cap below `node`.
    fn pi_dfs(&mut self, node: usize, from: Option<usize>) -> (r: Moments)
        requires
            old(self).valid(),
            node < old(self).net@.len(),
            !old(self).visited@[node as int],
        ensures
            final(self).valid(),
            final(self).alike(*old(self)),
            final(self).visited@ == old(self).visited@,
            (r, final(self).left()) == old(self).net@.moments(
                old(self).pins@,
                node as int,
                resistor_of(from),
                old(self).visited@,
                old(self).left(),
            ),
        decreases free(old(self).visited@),
    {
        let ghost net = self.net@;
        let ghost pins = self.pins@;
        let ghost before = self.visited@;
        let ghost from_r = resistor_of(from);
        let ghost branches = incident(net.resistors, node as int);
        let cap: F64 = self.net.node_caps[node].to_f64() + self.pins.pin_cap[node].to_f64();
        let mut m: Moments = Moments { y1: cap, y2: F64(0), y3: F64(0), cap };
        let ghost start = m;
        let ghost at_entry = self.left();
        proof {
            lemma_free(self.visited@, node as int);
        }
        self.visited.set(node, true);
        let mut k: usize = 0;
        let ghost path = self.visited@;
        assert(places(self.adjacency@[node as int]@) == branches);
        while k < self.adjacency[node].len()
            invariant
                self.valid(),
                self.alike(*old(self)),
                net == self.net@,
                pins == self.pins@,
                node < net.len(),
                from_r == resistor_of(from),
                branches == incident(net.resistors, node as int),
                self.visited@ == path,
                path[node as int],
                free(path) < free(old(self).visited@),
                places(self.adjacency@[node as int]@) == branches,
                k <= self.adjacency@[node as int]@.len(),
                net.branch_moments(pins, node as int, from_r, path, k as nat, m, self.left())
                    == net.branch_moments(pins, node as int, from_r, path, 0, start, at_entry),
            decreases self.adjacency@[node as int]@.len() - k,
        {
            let r: usize = self.adjacency[node][k];
            assert(branches[k as int] == r);
            proof {
                lemma_incident(net.resistors, node as int, k as int);
            }
            k = k + 1;
            if self.loops[r] {
                continue ;
            }
            let other: usize = self.other(r, node);
            let back: bool = match from {
                Some(f) => f == r,
                None => false,
            };
            if other == node || back {
                continue ;
            }
            if self.visited[other] {
                self.loops.set(r, true);
                continue ;
            }
            let res: F64 = self.net.resistors[r].2.to_f64();
            assert(net.resistors[r as int].2.widened() == res);
            let d: Moments = self.pi_dfs(other, Some(r));
            m = m.join(res, d);
        }
        self.downstream.set(node, m.cap.to_f32());
        self.visited.set(node, false);
        assert(self.visited@ =~= before);
        m
    }

    /// Each load's Elmore delay below `node`.
    fn elmore_dfs(&mut self, node: usize, from: Option<usize>, elmore: F64, out: &mut Vec<(usize, F32)>)
        requires
            old(self).valid(),
            node < old(self).net@.len(),
            !old(self).visited@[node as int],
        ensures
            final(self).valid(),
            final(self).alike(*old(self)),
            final(self).visited@ == old(self).visited@,
            final(self).left() == old(self).left(),
            delay_views(final(out)@) == old(self).net@.delays(
                old(self).pins@,
                old(self).left(),
                node as int,
                resistor_of(from),
                elmore,
                old(self).visited@,
                delay_views(old(out)@),
            ),
        decreases free(old(self).visited@),
    {
        let ghost net = self.net@;
        let ghost pins = self.pins@;
        let ghost before = self.visited@;
        let ghost from_r = resistor_of(from);
        let ghost branches = incident(net.resistors, node as int);
        let ghost s = self.left();
        if from.is_some() && self.pins.is_load[node] {
            let ghost done = delay_views(out@);
            out.push((node, elmore.to_f32()));
            assert(delay_views(out@) =~= done.push((node as int, elmore.narrowed())));
        }
        let ghost here = delay_views(out@);
        proof {
            lemma_free(self.visited@, node as int);
        }
        self.visited.set(node, true);
        let ghost path = self.visited@;
        let mut k: usize = 0;
        assert(places(self.adjacency@[node as int]@) == branches);
        while k < self.adjacency[node].len()
            invariant
                self.valid(),
                self.alike(*old(self)),
                net == self.net@,
                pins == self.pins@,
                s == self.left(),
                node < net.len(),
                from_r == resistor_of(from),
                branches == incident(net.resistors, node as int),
                self.visited@ == path,
                free(path) < free(old(self).visited@),
                places(self.adjacency@[node as int]@) == branches,
                k <= self.adjacency@[node as int]@.len(),
                net.branch_delays(pins, s, node as int, from_r, elmore, path, k as nat, delay_views(out@))
                    == net.branch_delays(pins, s, node as int, from_r, elmore, path, 0, here),
            decreases self.adjacency@[node as int]@.len() - k,
        {
            let r: usize = self.adjacency[node][k];
            assert(branches[k as int] == r);
            proof {
                lemma_incident(net.resistors, node as int, k as int);
            }
            k = k + 1;
            let other: usize = self.other(r, node);
            let back: bool = match from {
                Some(f) => f == r,
                None => false,
            };
            if !back && !self.visited[other] && !self.loops[r] {
                let res: F32 = self.net.resistors[r].2;
                assert(net.resistors[r as int].2 == res);
                let node_elmore: F64 = elmore + (res * self.downstream[other]).to_f64();
                self.elmore_dfs(other, Some(r), node_elmore, out);
            }
        }
        self.visited.set(node, false);
        assert(self.visited@ =~= before);
    }
}

proof fn lemma_incident(resistors: Seq<(int, int, F32)>, node: int, k: int)
    requires
        0 <= k < incident(resistors, node).len(),
    ensures
        0 <= incident(resistors, node)[k] < resistors.len(),
    decreases resistors.len(),
{
    if resistors.len() > 0 {
        let before = incident(resistors.drop_last(), node);
        if k < before.len() {
            lemma_incident(resistors.drop_last(), node, k);
        }
    }
}

fn adjacency(net: &Network) -> (r: Vec<Vec<usize>>)
    requires
        net@.valid(),
    ensures
        r@.len() == net@.len(),
        forall|i: int| 0 <= i < r@.len() ==> places((#[trigger] r@[i])@) == incident(net@.resistors, i),
{
    let n: usize = net.node_caps.len();
    let mut adj: Vec<Vec<usize>> = Vec::new();
    let mut i: usize = 0;
    while i < n
        invariant
            n == net@.len(),
            i <= n,
            adj@.len() == i,
            forall|j: int| 0 <= j < i ==> (#[trigger] adj@[j])@.len() == 0,
        decreases n - i,
    {
        adj.push(Vec::new());
        i = i + 1;
    }
    let ghost all = net@.resistors;
    assert forall|j: int| 0 <= j < adj@.len() implies places((#[trigger] adj@[j])@) == incident(
        all.take(0),
        j,
    ) by {
        assert(places(adj@[j]@) =~= Seq::<int>::empty());
    }
    let mut r: usize = 0;
    while r < net.resistors.len()
        invariant
            net@.valid(),
            r <= net.resistors@.len(),
            all == net@.resistors,
            adj@.len() == net@.len(),
            forall|j: int|
                0 <= j < adj@.len() ==> places((#[trigger] adj@[j])@) == incident(all.take(r as int), j),
        decreases net.resistors@.len() - r,
    {
        let t: (usize, usize, F32) = net.resistors[r];
        assert(all[r as int] == (t.0 as int, t.1 as int, t.2));
        let ghost before = adj@;
        push_place(&mut adj, t.0, r);
        let ghost middle = adj@;
        push_place(&mut adj, t.1, r);
        assert forall|j: int| 0 <= j < adj@.len() implies places((#[trigger] adj@[j])@) == incident(
            all.take(r + 1),
            j,
        ) by {
            assert(all.take(r + 1).drop_last() =~= all.take(r as int));
            assert(places(before[j]@) == incident(all.take(r as int), j));
            assert(places(middle[j]@) =~= if t.0 == j {
                places(before[j]@).push(r as int)
            } else {
                places(before[j]@)
            });
            assert(places(adj@[j]@) =~= if t.1 == j {
                places(middle[j]@).push(r as int)
            } else {
                places(middle[j]@)
            });
        }
        r = r + 1;
    }
    assert(all.take(r as int) =~= all);
    adj
}

fn push_place(adj: &mut Vec<Vec<usize>>, i: usize, r: usize)
    requires
        i < old(adj)@.len(),
    ensures
        final(adj)@.len() == old(adj)@.len(),
        forall|j: int| 0 <= j < final(adj)@.len() && j != i ==> #[trigger] final(adj)@[j] == old(adj)@[j],
        final(adj)@[i as int]@ == old(adj)@[i as int]@.push(r),
{
    adj[i].push(r);
}

fn falses(n: usize) -> (r: Vec<bool>)
    ensures
        r@ == Seq::new(n as nat, |i: int| false),
{
    let mut v: Vec<bool> = Vec::new();
    let mut i: usize = 0;
    while i < n
        invariant
            i <= n,
            v@ == Seq::new(i as nat, |i: int| false),
        decreases n - i,
    {
        v.push(false);
        i = i + 1;
        assert(v@ =~= Seq::new(i as nat, |i: int| false));
    }
    v
}

/// The admittance moments by one depth-first walk from the driver's node, the pi model from them,
/// then the Elmore delays by a second walk.
///
/// - A node's downstream capacitance is its ground cap plus its pin cap (and coupling caps, none
///   in an estimated network), summed in double, and stored in single precision for the second
///   walk.
/// - Each node's resistors are walked in creation order; one back to the node itself, or the one
///   arrived by, is skipped; one to a node already on the current path closes a loop and is
///   ignored in both walks.
/// - Rules 3 and 4 in double: `y1 += yd1`, `y2 += yd2 - r yd1^2`,
///   `y3 += yd3 - 2 r yd1 yd2 + r^2 yd1^3`.
/// - With `y2 = y3 = 0` the load is purely capacitive (`c1 = y1`, `c2 = rpi = 0`); otherwise
///   `c1 = y2^2 / y3`, `c2 = y1 - y2^2 / y3`, `rpi = -y3^2 / y2^3`, each narrowed.
/// - A load's Elmore delay is the running double sum of `r` times downstream cap along the path,
///   each product in single precision (both factors are), stored in single precision.
pub fn reduce_to_pi_elmore(net: &Network, driver: usize, pins: &NodePins) -> (r: PiElmore)
    requires
        net@.valid(),
        driver < net@.len(),
        pins.pin_cap@.len() == net@.len(),
        pins.is_load@.len() == net@.len(),
    ensures
        r@ == net@.reduced(driver as int, pins@),
{
    let n: usize = net.node_caps.len();
    let mut downstream: Vec<F32> = Vec::new();
    let mut i: usize = 0;
    while i < n
        invariant
            i <= n,
            downstream@ == Seq::new(i as nat, |i: int| F32(0)),
        decreases n - i,
    {
        downstream.push(F32(0));
        i = i + 1;
        assert(downstream@ =~= Seq::new(i as nat, |i: int| F32(0)));
    }
    let mut w: Walk = Walk {
        net,
        pins,
        adjacency: adjacency(net),
        visited: falses(n),
        loops: falses(net.resistors.len()),
        downstream,
    };
    assert(w.visited@ =~= net@.nothing_visited());
    assert(w.left() =~= net@.nothing_walked());
    let m: Moments = w.pi_dfs(driver, None);
    let (c2, rpi, c1): (F32, F32, F32) = if m.y2 == F64(0) && m.y3 == F64(0) {
        (F32(0), F32(0), m.y1.to_f32())
    } else {
        (
            (m.y1 - m.y2 * m.y2 / m.y3).to_f32(),
            (m.y3.negate() * m.y3 / (m.y2 * m.y2 * m.y2)).to_f32(),
            (m.y2 * m.y2 / m.y3).to_f32(),
        )
    };
    let mut elmore: Vec<(usize, F32)> = Vec::new();
    assert(delay_views(elmore@) =~= Seq::<(int, F32)>::empty());
    w.elmore_dfs(driver, None, F64(0), &mut elmore);
    PiElmore { c2, rpi, c1, elmore }
}

/// A network without resistors is all `c1`: its driver's ground and pin capacitance, no pi and no
/// Elmore delays.
pub proof fn lemma_lumped_load(net: NetworkView, driver: int, pins: NodePinsView)
    requires
        net.resistors.len() == 0,
        0 <= driver < net.len(),
    ensures
        net.reduced(driver, pins) == (PiElmoreView {
            c2: F32(0),
            rpi: F32(0),
            c1: (net.node_caps[driver].widened() + pins.pin_cap[driver].widened()).narrowed(),
            elmore: Seq::empty(),
        }),
{
    reveal(F64::is_eq);
}

spec fn all_loads(out: Seq<(int, F32)>, pins: NodePinsView, n: nat) -> bool {
    forall|i: int| 0 <= i < out.len() ==> 0 <= (#[trigger] out[i]).0 < n && pins.is_load[out[i].0]
}

proof fn lemma_delays_at_loads(
    net: NetworkView,
    pins: NodePinsView,
    s: WalkView,
    node: int,
    from: Option<int>,
    elmore: F64,
    visited: Seq<bool>,
    out: Seq<(int, F32)>,
)
    requires
        net.valid(),
        0 <= node < net.len(),
        all_loads(out, pins, net.len()),
    ensures
        all_loads(net.delays(pins, s, node, from, elmore, visited, out), pins, net.len()),
    decreases free(visited), 0int, 0int,
{
    if 0 <= node < visited.len() && !visited[node] {
        lemma_free(visited, node);
        let here = if from is Some && pins.is_load[node] {
            out.push((node, elmore.narrowed()))
        } else {
            out
        };
        lemma_branch_delays_at_loads(net, pins, s, node, from, elmore, visited.update(node, true), 0, here);
    }
}

proof fn lemma_branch_delays_at_loads(
    net: NetworkView,
    pins: NodePinsView,
    s: WalkView,
    node: int,
    from: Option<int>,
    elmore: F64,
    visited: Seq<bool>,
    k: nat,
    out: Seq<(int, F32)>,
)
    requires
        net.valid(),
        0 <= node < net.len(),
        all_loads(out, pins, net.len()),
    ensures
        all_loads(net.branch_delays(pins, s, node, from, elmore, visited, k, out), pins, net.len()),
    decreases free(visited), 1int, incident(net.resistors, node).len() - k,
{
    let branches = incident(net.resistors, node);
    if k < branches.len() {
        let r = branches[k as int];
        lemma_incident(net.resistors, node, k as int);
        let other = net.other(r, node);
        if Some(r) != from && !visited[other] && !s.loops[r] {
            let below = elmore + (net.resistors[r].2 * s.downstream[other]).widened();
            lemma_delays_at_loads(net, pins, s, other, Some(r), below, visited, out);
            let next = net.delays(pins, s, other, Some(r), below, visited, out);
            lemma_branch_delays_at_loads(net, pins, s, node, from, elmore, visited, k + 1, next);
        } else {
            lemma_branch_delays_at_loads(net, pins, s, node, from, elmore, visited, k + 1, out);
        }
    }
}

/// Elmore delays are kept for load pins of the network alone.
pub(crate) proof fn lemma_elmore_at_loads(net: NetworkView, driver: int, pins: NodePinsView)
    requires
        net.valid(),
        0 <= driver < net.len(),
    ensures
        forall|i: int|
            0 <= i < net.reduced(driver, pins).elmore.len() ==> {
                let node = (#[trigger] net.reduced(driver, pins).elmore[i]).0;
                0 <= node < net.len() && pins.is_load[node]
            },
{
    let (_, s) = net.moments(pins, driver, None, net.nothing_visited(), net.nothing_walked());
    lemma_delays_at_loads(net, pins, s, driver, None, F64(0), net.nothing_visited(), Seq::empty());
}

/// The network with a resistor from a node back to itself.
pub open spec fn with_self_resistor(net: NetworkView, node: int, ohms: F32) -> NetworkView {
    NetworkView { resistors: net.resistors.push((node, node, ohms)), ..net }
}

spec fn one_more(s: WalkView) -> WalkView {
    WalkView { loops: s.loops.push(false), ..s }
}

spec fn known(net: NetworkView, s: WalkView) -> bool {
    s.loops.len() == net.resistors.len()
}

proof fn lemma_self_incident(net: NetworkView, a: int, ohms: F32, node: int)
    ensures
        ({
            let more = with_self_resistor(net, a, ohms);
            let r = net.resistors.len() as int;
            incident(more.resistors, node) == if node == a {
                incident(net.resistors, node).push(r).push(r)
            } else {
                incident(net.resistors, node)
            }
        }),
{
    assert(with_self_resistor(net, a, ohms).resistors.drop_last() =~= net.resistors);
}

proof fn lemma_self_moments(
    net: NetworkView,
    a: int,
    ohms: F32,
    pins: NodePinsView,
    node: int,
    from: Option<int>,
    visited: Seq<bool>,
    s: WalkView,
)
    requires
        known(net, s),
        from != Some(net.resistors.len() as int),
    ensures
        ({
            let (m, t) = net.moments(pins, node, from, visited, s);
            &&& with_self_resistor(net, a, ohms).moments(pins, node, from, visited, one_more(s)) == (m, one_more(t))
            &&& known(net, t)
        }),
    decreases free(visited), 0int, 0int,
{
    if 0 <= node < visited.len() && !visited[node] {
        lemma_free(visited, node);
        let cap = net.node_caps[node].widened() + pins.pin_cap[node].widened();
        let start = Moments { y1: cap, y2: F64(0), y3: F64(0), cap };
        lemma_self_branch_moments(net, a, ohms, pins, node, from, visited.update(node, true), 0, start, s);
    }
}

proof fn lemma_self_branch_moments(
    net: NetworkView,
    a: int,
    ohms: F32,
    pins: NodePinsView,
    node: int,
    from: Option<int>,
    visited: Seq<bool>,
    k: nat,
    m: Moments,
    s: WalkView,
)
    requires
        known(net, s),
        from != Some(net.resistors.len() as int),
    ensures
        ({
            let (n, t) = net.branch_moments(pins, node, from, visited, k, m, s);
            &&& with_self_resistor(net, a, ohms).branch_moments(pins, node, from, visited, k, m, one_more(s)) == (
                n,
                one_more(t),
            )
            &&& known(net, t)
        }),
    decreases free(visited), 1int, incident(net.resistors, node).len() - k,
{
    let more = with_self_resistor(net, a, ohms);
    let branches = incident(net.resistors, node);
    lemma_self_incident(net, a, ohms, node);
    if k >= branches.len() {
        lemma_skip_self(more, pins, node, from, visited, k, m, one_more(s));
    } else {
        let r = branches[k as int];
        lemma_incident(net.resistors, node, k as int);
        let other = net.other(r, node);
        assert(more.other(r, node) == other);
        assert(incident(more.resistors, node)[k as int] == r);
        if s.loops[r] || other == node || Some(r) == from {
            lemma_self_branch_moments(net, a, ohms, pins, node, from, visited, k + 1, m, s);
        } else if visited[other] {
            let marked = WalkView { loops: s.loops.update(r, true), ..s };
            assert(one_more(s).loops.update(r, true) =~= one_more(marked).loops);
            lemma_self_branch_moments(net, a, ohms, pins, node, from, visited, k + 1, m, marked);
        } else {
            lemma_self_moments(net, a, ohms, pins, other, Some(r), visited, s);
            let (d, t) = net.moments(pins, other, Some(r), visited, s);
            let next = m.behind(net.resistors[r].2.widened(), d);
            lemma_self_branch_moments(net, a, ohms, pins, node, from, visited, k + 1, next, t);
        }
    }
}

/// Behind a node's other branches, a resistor back to it adds nothing.
proof fn lemma_skip_self(
    more: NetworkView,
    pins: NodePinsView,
    node: int,
    from: Option<int>,
    visited: Seq<bool>,
    k: nat,
    m: Moments,
    s: WalkView,
)
    requires
        forall|j: int|
            k <= j < incident(more.resistors, node).len() ==> more.other(
                #[trigger] incident(more.resistors, node)[j],
                node,
            ) == node,
    ensures
        more.branch_moments(pins, node, from, visited, k, m, s) == (m, s),
    decreases incident(more.resistors, node).len() - k,
{
    if k < incident(more.resistors, node).len() {
        assert(more.other(incident(more.resistors, node)[k as int], node) == node);
        lemma_skip_self(more, pins, node, from, visited, k + 1, m, s);
    }
}

proof fn lemma_skip_self_delays(
    more: NetworkView,
    pins: NodePinsView,
    s: WalkView,
    node: int,
    from: Option<int>,
    elmore: F64,
    visited: Seq<bool>,
    k: nat,
    out: Seq<(int, F32)>,
)
    requires
        visited[node],
        forall|j: int|
            k <= j < incident(more.resistors, node).len() ==> more.other(
                #[trigger] incident(more.resistors, node)[j],
                node,
            ) == node,
    ensures
        more.branch_delays(pins, s, node, from, elmore, visited, k, out) == out,
    decreases incident(more.resistors, node).len() - k,
{
    if k < incident(more.resistors, node).len() {
        assert(more.other(incident(more.resistors, node)[k as int], node) == node);
        lemma_skip_self_delays(more, pins, s, node, from, elmore, visited, k + 1, out);
    }
}

proof fn lemma_self_delays(
    net: NetworkView,
    a: int,
    ohms: F32,
    pins: NodePinsView,
    s: WalkView,
    node: int,
    from: Option<int>,
    elmore: F64,
    visited: Seq<bool>,
    out: Seq<(int, F32)>,
)
    requires
        known(net, s),
    ensures
        with_self_resistor(net, a, ohms).delays(pins, one_more(s), node, from, elmore, visited, out) == net.delays(
            pins,
            s,
            node,
            from,
            elmore,
            visited,
            out,
        ),
    decreases free(visited), 0int, 0int,
{
    if 0 <= node < visited.len() && !visited[node] {
        lemma_free(visited, node);
        let here = if from is Some && pins.is_load[node] {
            out.push((node, elmore.narrowed()))
        } else {
            out
        };
        lemma_self_branch_delays(net, a, ohms, pins, s, node, from, elmore, visited.update(node, true), 0, here);
    }
}

proof fn lemma_self_branch_delays(
    net: NetworkView,
    a: int,
    ohms: F32,
    pins: NodePinsView,
    s: WalkView,
    node: int,
    from: Option<int>,
    elmore: F64,
    visited: Seq<bool>,
    k: nat,
    out: Seq<(int, F32)>,
)
    requires
        known(net, s),
        visited[node],
    ensures
        with_self_resistor(net, a, ohms).branch_delays(pins, one_more(s), node, from, elmore, visited, k, out)
            == net.branch_delays(pins, s, node, from, elmore, visited, k, out),
    decreases free(visited), 1int, incident(net.resistors, node).len() - k,
{
    let more = with_self_resistor(net, a, ohms);
    let branches = incident(net.resistors, node);
    lemma_self_incident(net, a, ohms, node);
    if k >= branches.len() {
        lemma_skip_self_delays(more, pins, one_more(s), node, from, elmore, visited, k, out);
    } else {
        let r = branches[k as int];
        lemma_incident(net.resistors, node, k as int);
        let other = net.other(r, node);
        assert(more.other(r, node) == other);
        assert(incident(more.resistors, node)[k as int] == r);
        if Some(r) != from && !visited[other] && !s.loops[r] {
            let below = elmore + (net.resistors[r].2 * s.downstream[other]).widened();
            lemma_self_delays(net, a, ohms, pins, s, other, Some(r), below, visited, out);
            let next = net.delays(pins, s, other, Some(r), below, visited, out);
            lemma_self_branch_delays(net, a, ohms, pins, s, node, from, elmore, visited, k + 1, next);
        } else {
            lemma_self_branch_delays(net, a, ohms, pins, s, node, from, elmore, visited, k + 1, out);
        }
    }
}

/// A resistor from a node back to itself changes neither the pi model nor any Elmore delay.
pub proof fn lemma_self_resistor_ignored(net: NetworkView, node: int, ohms: F32, driver: int, pins: NodePinsView)
    ensures
        with_self_resistor(net, node, ohms).reduced(driver, pins) == net.reduced(driver, pins),
{
    let more = with_self_resistor(net, node, ohms);
    let visited = net.nothing_visited();
    let s = net.nothing_walked();
    assert(more.nothing_visited() =~= visited);
    assert(more.nothing_walked() =~= one_more(s));
    lemma_self_moments(net, node, ohms, pins, driver, None, visited, s);
    let (_, t) = net.moments(pins, driver, None, visited, s);
    lemma_self_delays(net, node, ohms, pins, t, driver, None, F64(0), visited, Seq::empty());
}

} // verus!
