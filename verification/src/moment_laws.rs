//! The admittance moments at a node are sums over its branches, and the pi model has the moments of
//! the network it stands for.

use vstd::prelude::*;
use crate::float64::F64;
use crate::identities;
use crate::parasitics;
use crate::parasitics::{Moments, NetworkView, NodePinsView, WalkView, TWO};
use crate::whole;

verus! {

/// The same number, but for the sign of zero.
pub open spec fn alike(a: F64, b: F64) -> bool {
    a == b || (a.zero() && b.zero())
}

/// A node without capacitance and without branches.
pub open spec fn nothing() -> Moments {
    Moments { y1: F64(0), y2: F64(0), y3: F64(0), cap: F64(0) }
}

/// A number that is added to zero first adds the same.
proof fn lemma_through_zero(m: F64, x: F64)
    requires
        x.nan() ==> x == F64(0x7ff8_0000_0000_0000),
    ensures
        alike(m + x, m + (F64(0) + x)),
{
    let y = F64(0) + x;
    if identities::finite(x) {
        identities::lemma_plus_zero(F64(0), x);
        if x.zero() {
            reveal(F64::spec_add);
            if identities::finite(m) {
                identities::lemma_plus_zero(m, x);
                identities::lemma_plus_zero(m, y);
            }
        }
    } else {
        reveal(F64::spec_add);
    }
}

/// What an addition gives is no number in one way only.
proof fn lemma_one_nan(a: F64, b: F64)
    ensures
        (a + b).nan() ==> a + b == F64(0x7ff8_0000_0000_0000),
{
    reveal(F64::spec_add);
    if !a.nan() && !b.nan() && !a.infinite() && !b.infinite() {
        let s = a.value() + b.value();
        if s > 0 {
            assert(crate::rounding::round(53, 0x7ff0_0000_0000_0000, s as nat, 1) <= 0x7ff0_0000_0000_0000);
        } else if s < 0 {
            assert(crate::rounding::round(53, 0x7ff0_0000_0000_0000, (-s) as nat, 1) <= 0x7ff0_0000_0000_0000);
        }
    }
}

/// The moments at a node are sums over its branches: a branch adds to the second and third what it
/// has by itself, whatever the node already holds, and to the first and the capacitance all that
/// lies behind its resistor.
pub proof fn lemma_branch_adds_its_own(m: Moments, res: F64, d: Moments)
    ensures
        ({
            let (with, alone) = (m.behind(res, d), nothing().behind(res, d));
            &&& alike(with.y2, m.y2 + alone.y2)
            &&& alike(with.y3, m.y3 + alone.y3)
            &&& with.y1 == m.y1 + d.y1
            &&& with.cap == m.cap + d.cap
        }),
{
    let a = d.y2;
    let b = res * d.y1 * d.y1;
    lemma_one_nan(a, b.spec_neg());
    lemma_through_zero(m.y2, a - b);
    let e = d.y3 - F64(TWO) * res * d.y1 * d.y2;
    let f = res * res * d.y1 * d.y1 * d.y1;
    lemma_one_nan(e, f);
    lemma_through_zero(m.y3, e + f);
}

/// Two equal branches at a node have twice the second and third moments of one of them.
pub proof fn lemma_equal_branches_count_twice(cap: F64, res: F64, d: Moments)
    ensures
        ({
            let start = Moments { y1: cap, y2: F64(0), y3: F64(0), cap };
            let one = start.behind(res, d);
            let two = one.behind(res, d);
            &&& alike(two.y2, one.y2 + one.y2)
            &&& alike(two.y3, one.y3 + one.y3)
            &&& two.y1 == (cap + d.y1) + d.y1
            &&& two.cap == (cap + d.cap) + d.cap
        }),
{
    let start = Moments { y1: cap, y2: F64(0), y3: F64(0), cap };
    lemma_branch_adds_its_own(start.behind(res, d), res, d);
}

/// A resistor of no ohms changes nothing: the branch behind it adds its own moments.
pub proof fn lemma_no_ohms(m: Moments, res: F64, d: Moments)
    requires
        res.zero(),
        identities::finite(d.y1),
        identities::finite(d.y2),
        identities::finite(d.y3),
        identities::finite(m.y2),
        identities::finite(m.y3),
    ensures
        ({
            let with = m.behind(res, d);
            &&& alike(with.y2, m.y2 + d.y2)
            &&& alike(with.y3, m.y3 + d.y3)
        }),
{
    reveal(F64::spec_mul);
    reveal(F64::spec_neg);
    let two = F64(TWO);
    let z = res * d.y1 * d.y1;
    assert(z.zero());
    identities::lemma_plus_zero(d.y2, z.spec_neg());
    lemma_alike_sum(m.y2, d.y2 - z, d.y2);
    let u = two * res * d.y1 * d.y2;
    let v = res * res * d.y1 * d.y1 * d.y1;
    assert(u.zero() && v.zero());
    identities::lemma_plus_zero(d.y3, u.spec_neg());
    let w = d.y3 - u;
    identities::lemma_plus_zero(w, v);
    lemma_alike_sum(m.y3, w + v, d.y3);
}

/// The sums with two numbers that are alike are alike.
proof fn lemma_alike_sum(m: F64, a: F64, b: F64)
    requires
        identities::finite(m),
        alike(a, b),
    ensures
        alike(m + a, m + b),
{
    if a.zero() && b.zero() {
        identities::lemma_plus_zero(m, a);
        identities::lemma_plus_zero(m, b);
    }
}

/// On whole numbers, as far as every product fits, the moments behind a resistor are exactly those
/// of the circuit: `y2 - R y1^2` and `y3 - 2 R y1 y2 + R^2 y1^3`, added to those of the node.
pub proof fn lemma_moments_of_a_circuit(
    m: Moments,
    res: F64,
    d: Moments,
    m2: int,
    m3: int,
    r: int,
    d1: int,
    d2: int,
    d3: int,
)
    requires
        whole::whole(m.y2, m2),
        whole::whole(m.y3, m3),
        whole::whole(res, r),
        whole::whole(d.y1, d1),
        whole::whole(d.y2, d2),
        whole::whole(d.y3, d3),
        whole::few_bits(r * d1),
        whole::few_bits(r * d1 * d1),
        whole::few_bits(d2 - r * d1 * d1),
        whole::few_bits(m2 + (d2 - r * d1 * d1)),
        whole::few_bits(2 * r),
        whole::few_bits(2 * r * d1),
        whole::few_bits(2 * r * d1 * d2),
        whole::few_bits(d3 - 2 * r * d1 * d2),
        whole::few_bits(r * r),
        whole::few_bits(r * r * d1),
        whole::few_bits(r * r * d1 * d1),
        whole::few_bits(r * r * d1 * d1 * d1),
        whole::few_bits(d3 - 2 * r * d1 * d2 + r * r * d1 * d1 * d1),
        whole::few_bits(m3 + (d3 - 2 * r * d1 * d2 + r * r * d1 * d1 * d1)),
    ensures
        whole::whole(m.behind(res, d).y2, m2 + (d2 - r * d1 * d1)),
        whole::whole(m.behind(res, d).y3, m3 + (d3 - 2 * r * d1 * d2 + r * r * d1 * d1 * d1)),
{
    let two = F64(TWO);
    whole::lemma_product(res, r, d.y1, d1);
    whole::lemma_product(res * d.y1, r * d1, d.y1, d1);
    whole::lemma_difference(d.y2, d2, res * d.y1 * d.y1, r * d1 * d1);
    whole::lemma_sum(m.y2, m2, d.y2 - res * d.y1 * d.y1, d2 - r * d1 * d1);
    whole::lemma_two_is_whole();
    whole::lemma_product(two, 2, res, r);
    whole::lemma_product(two * res, 2 * r, d.y1, d1);
    whole::lemma_product(two * res * d.y1, 2 * r * d1, d.y2, d2);
    let u = two * res * d.y1 * d.y2;
    whole::lemma_difference(d.y3, d3, u, 2 * r * d1 * d2);
    whole::lemma_product(res, r, res, r);
    whole::lemma_product(res * res, r * r, d.y1, d1);
    whole::lemma_product(res * res * d.y1, r * r * d1, d.y1, d1);
    whole::lemma_product(res * res * d.y1 * d.y1, r * r * d1 * d1, d.y1, d1);
    let v = res * res * d.y1 * d.y1 * d.y1;
    whole::lemma_sum(d.y3 - u, d3 - 2 * r * d1 * d2, v, r * r * d1 * d1 * d1);
    whole::lemma_sum(m.y3, m3, d.y3 - u + v, d3 - 2 * r * d1 * d2 + r * r * d1 * d1 * d1);
}

/// The first moment at every node is the capacitance downstream of it.
pub proof fn lemma_first_moment_is_capacitance(
    net: NetworkView,
    pins: NodePinsView,
    node: int,
    from: Option<int>,
    visited: Seq<bool>,
    s: WalkView,
)
    ensures
        net.moments(pins, node, from, visited, s).0.y1 == net.moments(pins, node, from, visited, s).0.cap,
    decreases parasitics::free(visited), 0int, 0int,
{
    if 0 <= node < visited.len() && !visited[node] {
        parasitics::lemma_free(visited, node);
        let cap = net.node_caps[node].widened() + pins.pin_cap[node].widened();
        let start = Moments { y1: cap, y2: F64(0), y3: F64(0), cap };
        lemma_branches_are_capacitance(net, pins, node, from, visited.update(node, true), 0, start, s);
    }
}

proof fn lemma_branches_are_capacitance(
    net: NetworkView,
    pins: NodePinsView,
    node: int,
    from: Option<int>,
    visited: Seq<bool>,
    k: nat,
    m: Moments,
    s: WalkView,
)
    requires
        m.y1 == m.cap,
    ensures
        ({
            let n = net.branch_moments(pins, node, from, visited, k, m, s).0;
            n.y1 == n.cap
        }),
    decreases parasitics::free(visited), 1int, parasitics::incident(net.resistors, node).len() - k,
{
    let branches = parasitics::incident(net.resistors, node);
    if k < branches.len() {
        let r = branches[k as int];
        let other = net.other(r, node);
        if s.loops[r] || other == node || Some(r) == from {
            lemma_branches_are_capacitance(net, pins, node, from, visited, k + 1, m, s);
        } else if visited[other] {
            let t = WalkView { loops: s.loops.update(r, true), ..s };
            lemma_branches_are_capacitance(net, pins, node, from, visited, k + 1, m, t);
        } else {
            let (d, t) = net.moments(pins, other, Some(r), visited, s);
            lemma_first_moment_is_capacitance(net, pins, other, Some(r), visited, s);
            let n = m.behind(net.resistors[r].2.widened(), d);
            lemma_branches_are_capacitance(net, pins, node, from, visited, k + 1, n, t);
        }
    }
}

proof fn lemma_powers(r: int, c: int)
    requires
        0 < r < 0x20,
        0 < c < 0x20,
    ensures
        0 < c * c < 0x400,
        0 < r * r < 0x400,
        0 < r * (c * c) < 0x8000,
        0 < (r * r) * (c * c * c) < 0x200_0000,
        0 < (r * (c * c)) * (r * (c * c)) < 0x4000_0000,
        (r * (c * c)) * (r * (c * c)) == c * ((r * r) * (c * c * c)),
        0 < (r * (c * c)) * (r * (c * c)) * (r * (c * c)) < 0x2000_0000_0000,
        0 < ((r * r) * (c * c * c)) * ((r * r) * (c * c * c)) < 0x4_0000_0000_0000,
        ((r * r) * (c * c * c)) * ((r * r) * (c * c * c)) == r * ((r * (c * c)) * (r * (c * c)) * (r * (c * c))),
{
    let (a, b) = (c * c, r * r);
    assert(0 < a < 0x400 && 0 < b < 0x400) by (nonlinear_arith)
        requires
            a == c * c,
            b == r * r,
            0 < r < 0x20,
            0 < c < 0x20,
    ;
    let x = r * a;
    let y = a * c;
    assert(0 < x < 0x8000 && 0 < y < 0x8000) by (nonlinear_arith)
        requires
            x == r * a,
            y == a * c,
            0 < a < 0x400,
            0 < r < 0x20,
            0 < c < 0x20,
    ;
    let z = b * y;
    assert(0 < z < 0x200_0000) by (nonlinear_arith)
        requires
            z == b * y,
            0 < b < 0x400,
            0 < y < 0x8000,
    ;
    assert(c * c * c == y);
    let u = b * a;
    assert(0 < u < 0x10_0000) by (nonlinear_arith)
        requires
            u == b * a,
            0 < a < 0x400,
            0 < b < 0x400,
    ;
    assert(0 < u * a < 0x4000_0000) by (nonlinear_arith)
        requires
            0 < u < 0x10_0000,
            0 < a < 0x400,
    ;
    assert(x * x == u * a) by (nonlinear_arith)
        requires
            x == r * a,
            u == b * a,
            b == r * r,
    ;
    assert(u * a == c * z) by (nonlinear_arith)
        requires
            u == b * a,
            z == b * y,
            y == a * c,
            a == c * c,
    ;
    assert(0 < (x * x) * x < 0x2000_0000_0000) by (nonlinear_arith)
        requires
            0 < x * x < 0x4000_0000,
            0 < x < 0x8000,
    ;
    assert(0 < z * z < 0x4_0000_0000_0000) by (nonlinear_arith)
        requires
            0 < z < 0x200_0000,
    ;
    assert(z * z == r * ((x * x) * x)) by (nonlinear_arith)
        requires
            z == b * y,
            y == a * c,
            a == c * c,
            b == r * r,
            x == r * a,
    ;
}

/// The pi model has the moments of the network: where the moments at the driver are those of a
/// capacitance `near` and, behind a resistance `r`, a capacitance `far`, on whole numbers, the model
/// is just that.
pub proof fn lemma_pi_has_the_moments(net: NetworkView, driver: int, pins: NodePinsView, near: int, r: int, far: int)
    requires
        ({
            let m = net.moments(pins, driver, None, net.nothing_visited(), net.nothing_walked()).0;
            &&& whole::whole(m.y1, near + far)
            &&& whole::whole(m.y2, -(r * (far * far)))
            &&& whole::whole(m.y3, (r * r) * (far * far * far))
        }),
        0 < r < 0x20,
        0 < far < 0x20,
        0 <= near < 0x10_0000,
    ensures
        ({
            let p = net.reduced(driver, pins);
            &&& whole::single_whole(p.c2, near)
            &&& whole::single_whole(p.rpi, r)
            &&& whole::single_whole(p.c1, far)
        }),
{
    let m = net.moments(pins, driver, None, net.nothing_visited(), net.nothing_walked()).0;
    lemma_powers(r, far);
    let (x, z) = (r * (far * far), (r * r) * (far * far * far));
    whole::lemma_zero_is_whole(F64(0));
    crate::float64::lemma_order_is_numeric(m.y2, F64(0));
    whole::lemma_has_a_value(m.y2, -x);
    assert(!m.y2.is_eq(F64(0)));
    assert((-x) * (-x) == x * x && (-x) * (-x) * (-x) == -(x * x * x)) by (nonlinear_arith);
    whole::lemma_product(m.y2, -x, m.y2, -x);
    let yy = m.y2 * m.y2;
    whole::lemma_quotient(yy, m.y3, z, far);
    whole::lemma_difference(m.y1, near + far, yy / m.y3, far);
    whole::lemma_narrowed(yy / m.y3, far);
    whole::lemma_narrowed(m.y1 - yy / m.y3, near);
    whole::lemma_negated(m.y3, z);
    let top = -m.y3 * m.y3;
    assert((-z) * z == -(z * z)) by (nonlinear_arith);
    whole::lemma_product(-m.y3, -z, m.y3, z);
    whole::lemma_product(yy, x * x, m.y2, -x);
    assert((x * x) * (-x) == -(x * x * x)) by (nonlinear_arith);
    assert(-(z * z) == r * (-(x * x * x))) by (nonlinear_arith)
        requires
            z * z == r * (x * x * x),
    ;
    whole::lemma_quotient(top, yy * m.y2, -(x * x * x), r);
    whole::lemma_narrowed(top / (yy * m.y2), r);
}

} // verus!
