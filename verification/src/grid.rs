//! A table looked up at its own grid points gives the values it stores.

use vstd::prelude::*;
use crate::float32::F32;
use crate::float64::F64;
use crate::identities;
use crate::table;
use crate::table::{TableView, ONE};

verus! {

/// Axis values that are finite, each above the one before.
pub open spec fn rising(values: Seq<F32>) -> bool {
    &&& forall|i: int| 0 <= i < values.len() ==> identities::single_finite(#[trigger] values[i])
    &&& forall|i: int, j: int| 0 <= i < j < values.len() ==> (#[trigger] values[i]).is_lt(#[trigger] values[j])
}

/// A complete table of finite values over axes that rise.
pub open spec fn regular(t: TableView) -> bool {
    &&& t.complete()
    &&& forall|k: int| 0 <= k < t.axes.len() ==> rising((#[trigger] t.axes[k]).values)
    &&& forall|i: int| 0 <= i < t.values.len() ==> identities::single_finite(#[trigger] t.values[i])
}

/// What is looked up along axis `k` is its value at place `g`; along an axis of one value, anything.
pub open spec fn on_grid(t: TableView, k: int, a: F32, g: int) -> bool {
    k < t.axes.len() ==> 0 <= g < t.axis(k).len() && (t.axis(k).len() == 1 || a.is_eq(t.axis(k)[g]))
}

/// The row-major place of a grid point.
pub open spec fn grid_place(t: TableView, g1: int, g2: int, g3: int) -> int {
    if t.axes.len() == 0 {
        0
    } else if t.axes.len() == 1 {
        g1
    } else if t.axes.len() == 2 {
        g1 * t.axis(1).len() + g2
    } else {
        (g1 * t.axis(1).len() + g2) * t.axis(2).len() + g3
    }
}

/// A weight of nothing or of the whole.
spec fn weight(x: F64, whole: bool) -> bool {
    if whole {
        x == F64(ONE)
    } else {
        x.zero()
    }
}

/// The number `y`, or a zero where it is not hit; a zero stands for the other.
spec fn hit(x: F64, at: bool, y: F64) -> bool {
    &&& identities::finite(x)
    &&& if at {
        x == y || (x.zero() && y.zero())
    } else {
        x.zero()
    }
}

/// Where the fraction of an interval is a weight, so is the rest of it.
proof fn lemma_rest_weight(x: F64, whole: bool)
    requires
        weight(x, whole),
    ensures
        weight(F64(ONE) - x, !whole),
{
    identities::lemma_rest(x);
}

proof fn lemma_weights(a: F64, p: bool, b: F64, q: bool)
    requires
        weight(a, p),
        weight(b, q),
    ensures
        weight(a * b, p && q),
{
    assert(identities::finite(F64(ONE)));
    identities::lemma_times(a, b);
    if p && q {
        assert(a * b == b);
    } else if p {
        assert(a * b == b);
    }
}

proof fn lemma_term(w: F64, at: bool, y: F64)
    requires
        weight(w, at),
        identities::finite(y),
    ensures
        hit(w * y, at, y),
{
    identities::lemma_times(w, y);
}

/// A sum of terms of which one at most is hit.
proof fn lemma_sum(a: F64, p: bool, b: F64, q: bool, y: F64)
    requires
        hit(a, p, y),
        hit(b, q, y),
        !(p && q),
        identities::finite(y),
    ensures
        hit(a + b, p || q, y),
{
    identities::lemma_plus_zero(a, b);
}

proof fn lemma_hit_narrowed(x: F64, v: F32)
    requires
        identities::single_finite(v),
        hit(x, true, v.widened()),
    ensures
        x.narrowed().is_eq(v),
{
    identities::lemma_widened_is_exact(v);
    reveal(F32::is_eq);
    if v.zero() {
        reveal(F64::narrowed);
        assert(x.zero());
    } else {
        assert(x == v.widened());
    }
}

/// A grid value falls at an end of its interval: at the lower, or at the upper of the last.
proof fn lemma_axis_at_grid(values: Seq<F32>, x: F32, g: int)
    requires
        table::ascending(values),
        rising(values),
        values.len() >= 2,
        0 <= g < values.len(),
        x.is_eq(values[g]),
    ensures
        ({
            let i = table::axis_index(x, values);
            let up = g == values.len() - 1;
            &&& 0 <= i
            &&& i + 1 < values.len()
            &&& g == (if up { i + 1 } else { i })
            &&& table::fraction(values, i, x) matches Some(f) && weight(f, up)
        }),
{
    reveal(F32::is_eq);
    reveal(F32::is_le);
    reveal(F32::is_lt);
    let n = values.len() as int;
    let i = table::axis_index(x, values);
    assert(identities::single_finite(values[g]));
    table::lemma_axis_interval(x, values);
    if g == 0 {
        assert(i == 0);
        assert(values[0].is_lt(values[n - 1]));
    } else {
        assert(values[0].is_lt(values[g]));
        if g == n - 1 {
            assert(i == n - 2);
        } else {
            assert(values[g].is_lt(values[n - 1]));
            if i < g {
                assert(values[i + 1].is_le(values[g])) by {
                    if i + 1 < g {
                        assert(values[i + 1].is_lt(values[g]));
                    }
                }
            }
            if i > g {
                assert(values[g].is_lt(values[i]));
            }
        }
    }
    assert(values[i].is_lt(values[i + 1]));
    assert(identities::single_finite(values[i]) && identities::single_finite(values[i + 1]));
    identities::lemma_ends(x, values[i], values[i + 1]);
}

proof fn lemma_linear(dx: F64, up: bool, y0: F64, y1: F64)
    requires
        weight(dx, up),
        identities::finite(y0),
        identities::finite(y1),
    ensures
        hit((F64(ONE) - dx) * y0 + dx * y1, true, if up { y1 } else { y0 }),
{
    let y = if up {
        y1
    } else {
        y0
    };
    lemma_rest_weight(dx, up);
    lemma_term(F64(ONE) - dx, !up, y0);
    lemma_term(dx, up, y1);
    lemma_sum((F64(ONE) - dx) * y0, !up, dx * y1, up, y);
}

/// A weighted term of a bilinear sum, seen from the value of the corner that is hit.
proof fn lemma_term2(a: F64, p: bool, b: F64, q: bool, z: F64, y: F64)
    requires
        weight(a, p),
        weight(b, q),
        identities::finite(z),
        p && q ==> z == y,
    ensures
        hit(a * b * z, p && q, y),
{
    lemma_weights(a, p, b, q);
    lemma_term(a * b, p && q, z);
}

proof fn lemma_bilinear(dx1: F64, u1: bool, dx2: F64, u2: bool, y00: F64, y01: F64, y10: F64, y11: F64)
    requires
        weight(dx1, u1),
        weight(dx2, u2),
        identities::finite(y00),
        identities::finite(y01),
        identities::finite(y10),
        identities::finite(y11),
    ensures
        ({
            let one = F64(ONE);
            hit(
                (one - dx1) * (one - dx2) * y00 + dx1 * (one - dx2) * y10 + dx1 * dx2 * y11 + (one - dx1) * dx2 * y01,
                true,
                if u1 {
                    if u2 {
                        y11
                    } else {
                        y10
                    }
                } else if u2 {
                    y01
                } else {
                    y00
                },
            )
        }),
{
    let one = F64(ONE);
    let y = if u1 {
        if u2 {
            y11
        } else {
            y10
        }
    } else if u2 {
        y01
    } else {
        y00
    };
    let (r1, r2) = (one - dx1, one - dx2);
    lemma_rest_weight(dx1, u1);
    lemma_rest_weight(dx2, u2);
    lemma_term2(r1, !u1, r2, !u2, y00, y);
    lemma_term2(dx1, u1, r2, !u2, y10, y);
    lemma_term2(dx1, u1, dx2, u2, y11, y);
    lemma_term2(r1, !u1, dx2, u2, y01, y);
    let (a, b, c, d) = (r1 * r2 * y00, dx1 * r2 * y10, dx1 * dx2 * y11, r1 * dx2 * y01);
    lemma_sum(a, !u1 && !u2, b, u1 && !u2, y);
    lemma_sum(a + b, !u2, c, u1 && u2, y);
    lemma_sum(a + b + c, !u2 || u1, d, !u1 && u2, y);
}

/// A weighted term of a trilinear sum, seen from the value of the corner that is hit.
proof fn lemma_term3(a: F64, p: bool, b: F64, q: bool, c: F64, r: bool, z: F64, y: F64)
    requires
        weight(a, p),
        weight(b, q),
        weight(c, r),
        identities::finite(z),
        p && q && r ==> z == y,
    ensures
        hit(a * b * c * z, p && q && r, y),
{
    lemma_weights(a, p, b, q);
    lemma_weights(a * b, p && q, c, r);
    lemma_term(a * b * c, p && q && r, z);
}

/// The place among the eight corners of one that is `up` along the axes given.
spec fn corner_place(u1: bool, u2: bool, u3: bool) -> int {
    (if u1 {
        4int
    } else {
        0
    }) + (if u2 {
        2int
    } else {
        0
    }) + (if u3 {
        1int
    } else {
        0
    })
}

proof fn lemma_trilinear(dx1: F64, u1: bool, dx2: F64, u2: bool, dx3: F64, u3: bool, ys: Seq<F64>, v: F32)
    requires
        weight(dx1, u1),
        weight(dx2, u2),
        weight(dx3, u3),
        ys.len() == 8,
        forall|i: int| 0 <= i < 8 ==> identities::finite(#[trigger] ys[i]),
        ys[corner_place(u1, u2, u3)] == v.widened(),
        identities::single_finite(v),
    ensures
        table::trilinear(dx1, dx2, dx3, ys).is_eq(v),
{
    let one = F64(ONE);
    let y = v.widened();
    let (r1, r2, r3) = (one - dx1, one - dx2, one - dx3);
    lemma_rest_weight(dx1, u1);
    lemma_rest_weight(dx2, u2);
    lemma_rest_weight(dx3, u3);
    assert(identities::finite(ys[0]) && identities::finite(ys[1]) && identities::finite(ys[2]) && identities::finite(
        ys[3],
    ));
    assert(identities::finite(ys[4]) && identities::finite(ys[5]) && identities::finite(ys[6]) && identities::finite(
        ys[7],
    ));
    identities::lemma_widened_is_exact(v);
    lemma_term3(r1, !u1, r2, !u2, r3, !u3, ys[0], y);
    lemma_term3(r1, !u1, r2, !u2, dx3, u3, ys[1], y);
    lemma_term3(r1, !u1, dx2, u2, r3, !u3, ys[2], y);
    lemma_term3(r1, !u1, dx2, u2, dx3, u3, ys[3], y);
    lemma_term3(dx1, u1, r2, !u2, r3, !u3, ys[4], y);
    lemma_term3(dx1, u1, r2, !u2, dx3, u3, ys[5], y);
    lemma_term3(dx1, u1, dx2, u2, r3, !u3, ys[6], y);
    lemma_term3(dx1, u1, dx2, u2, dx3, u3, ys[7], y);
    let t0 = r1 * r2 * r3 * ys[0];
    let t1 = r1 * r2 * dx3 * ys[1];
    let t2 = r1 * dx2 * r3 * ys[2];
    let t3 = r1 * dx2 * dx3 * ys[3];
    let t4 = dx1 * r2 * r3 * ys[4];
    let t5 = dx1 * r2 * dx3 * ys[5];
    let t6 = dx1 * dx2 * r3 * ys[6];
    let t7 = dx1 * dx2 * dx3 * ys[7];
    let (n1, n2, n3) = (!u1, !u2, !u3);
    lemma_sum(t0, n1 && n2 && n3, t1, n1 && n2 && u3, y);
    let s1 = t0 + t1;
    lemma_sum(s1, n1 && n2, t2, n1 && u2 && n3, y);
    let s2 = s1 + t2;
    lemma_sum(s2, n1 && (n2 || n3), t3, n1 && u2 && u3, y);
    let s3 = s2 + t3;
    lemma_sum(s3, n1, t4, u1 && n2 && n3, y);
    let s4 = s3 + t4;
    lemma_sum(s4, n1 || (n2 && n3), t5, u1 && n2 && u3, y);
    let s5 = s4 + t5;
    lemma_sum(s5, n1 || n2, t6, u1 && u2 && n3, y);
    let s6 = s5 + t6;
    lemma_sum(s6, n1 || n2 || n3, t7, u1 && u2 && u3, y);
    lemma_hit_narrowed(s6 + t7, v);
}

/// A cell of a table of finite values is finite.
proof fn lemma_cell(t: TableView, i: int)
    requires
        regular(t),
        t.cell(i) is Some,
    ensures
        identities::finite(t.cell(i)->0),
{
    assert(identities::single_finite(t.values[i]));
    identities::lemma_widened_is_exact(t.values[i]);
}

proof fn lemma_corner_finite(t: TableView, i1: int, i2: int, i3: int, u1: bool, u2: bool, u3: bool)
    requires
        regular(t),
        t.corner(i1, i2, i3, u1, u2, u3) is Some,
    ensures
        identities::finite(t.corner(i1, i2, i3, u1, u2, u3)->0),
{
    let j1 = if u1 {
        i1 + 1
    } else {
        i1
    };
    let j2 = if u2 {
        i2 + 1
    } else {
        i2
    };
    let j3 = if u3 {
        i3 + 1
    } else {
        i3
    };
    if t.cell3(j1, j2, j3) is Some {
        lemma_cell(t, (j1 * t.axis(1).len() + j2) * t.axis(2).len() + j3);
    }
}

/// What an axis of a regular table gives at a grid value: the interval, whether its upper end is
/// meant, and the weight of that end.
proof fn lemma_step(t: TableView, k: int, a: F32, g: int) -> (up: bool)
    requires
        regular(t),
        0 <= k < t.axes.len(),
        on_grid(t, k, a, g),
    ensures
        ({
            let i = table::axis_index(a, t.axis(k));
            &&& i >= 0
            &&& g == (if up { i + 1 } else { i })
            &&& t.step(k, i, a) matches Some(f) && weight(f, up)
            &&& t.axis(k).len() == 1 ==> !up
        }),
{
    assert(rising(t.axes[k].values));
    assert(table::ascending(t.axes[k].values));
    if t.axis(k).len() == 1 {
        false
    } else {
        lemma_axis_at_grid(t.axis(k), a, g);
        g == t.axis(k).len() - 1
    }
}

/// A lookup at a grid point of a complete table of finite values, over axes that are finite and
/// rise, gives the value stored there: the same number, a zero with either sign.
pub proof fn lemma_lookup_at_grid_point(t: TableView, a1: F32, a2: F32, a3: F32, g1: int, g2: int, g3: int)
    requires
        regular(t),
        !a1.nan(),
        !a2.nan(),
        !a3.nan(),
        on_grid(t, 0, a1, g1),
        on_grid(t, 1, a2, g2),
        on_grid(t, 2, a3, g3),
    ensures
        0 <= grid_place(t, g1, g2, g3) < t.values.len(),
        t.value_at(a1, a2, a3) matches Some(r) && r.is_eq(t.values[grid_place(t, g1, g2, g3)]),
{
    reveal_with_fuel(TableView::cells_from, 4);
    table::lemma_lookup_in_complete_table(t, a1, a2, a3);
    let n = t.axes.len();
    let at = grid_place(t, g1, g2, g3);
    if n == 0 {
        assert(identities::single_finite(t.values[0]));
        reveal(F32::is_eq);
    } else if n == 1 {
        lemma_at_grid1(t, a1, g1);
    } else if n == 2 {
        lemma_at_grid2(t, a1, a2, g1, g2);
    } else {
        lemma_at_grid3(t, a1, a2, a3, g1, g2, g3);
    }
}

proof fn lemma_at_grid1(t: TableView, a1: F32, g1: int)
    requires
        regular(t),
        t.axes.len() == 1,
        on_grid(t, 0, a1, g1),
        t.order1(a1) is Some,
    ensures
        0 <= g1 < t.values.len(),
        t.order1(a1)->0.is_eq(t.values[g1]),
{
    reveal_with_fuel(TableView::cells_from, 3);
    let up = lemma_step(t, 0, a1, g1);
    assert(t.cells_from(1) == 1);
    assert(t.axis(0).len() * 1 == t.axis(0).len());
    assert(identities::single_finite(t.values[g1]));
    if t.axis(0).len() == 1 {
        reveal(F32::is_eq);
    } else {
        let i = table::axis_index(a1, t.axis(0));
        let dx = table::fraction(t.axis(0), i, a1)->0;
        let (y0, y1) = (t.cell(i)->0, t.cell(i + 1)->0);
        lemma_cell(t, i);
        lemma_cell(t, i + 1);
        lemma_linear(dx, up, y0, y1);
        lemma_hit_narrowed((F64(ONE) - dx) * y0 + dx * y1, t.values[g1]);
    }
}

proof fn lemma_at_grid2(t: TableView, a1: F32, a2: F32, g1: int, g2: int)
    requires
        regular(t),
        t.axes.len() == 2,
        on_grid(t, 0, a1, g1),
        on_grid(t, 1, a2, g2),
        t.order2(a1, a2) is Some,
    ensures
        ({
            let at = g1 * t.axis(1).len() + g2;
            0 <= at < t.values.len() && t.order2(a1, a2)->0.is_eq(t.values[at])
        }),
{
    reveal_with_fuel(TableView::cells_from, 4);
    let (n1, n2) = (t.axis(0).len() as int, t.axis(1).len() as int);
    let u1 = lemma_step(t, 0, a1, g1);
    let u2 = lemma_step(t, 1, a2, g2);
    assert(t.cells_from(2) == 1);
    assert(n2 * 1 == n2);
    assert(t.cells_from(1) == n2);
    table::lemma_row_major(g1, g2, n1, n2);
    let at = g1 * n2 + g2;
    let v = t.values[at];
    assert(identities::single_finite(v));
    let (i1, i2) = (table::axis_index(a1, t.axis(0)), table::axis_index(a2, t.axis(1)));
    if n1 == 1 && n2 == 1 {
        assert(g1 == 0 && g2 == 0);
        assert(0 * n2 == 0);
        reveal(F32::is_eq);
    } else if n1 == 1 {
        assert(g1 == 0);
        let dx = table::fraction(t.axis(1), i2, a2)->0;
        let (y0, y1) = (t.cell2(0, i2)->0, t.cell2(0, i2 + 1)->0);
        lemma_cell(t, 0 * n2 + i2);
        lemma_cell(t, 0 * n2 + (i2 + 1));
        lemma_linear(dx, u2, y0, y1);
        lemma_hit_narrowed((F64(ONE) - dx) * y0 + dx * y1, v);
    } else if n2 == 1 {
        assert(g2 == 0);
        let dx = table::fraction(t.axis(0), i1, a1)->0;
        let (y0, y1) = (t.cell2(i1, 0)->0, t.cell2(i1 + 1, 0)->0);
        lemma_cell(t, i1 * n2 + 0);
        lemma_cell(t, (i1 + 1) * n2 + 0);
        lemma_linear(dx, u1, y0, y1);
        lemma_hit_narrowed((F64(ONE) - dx) * y0 + dx * y1, v);
    } else {
        let dx1 = table::fraction(t.axis(0), i1, a1)->0;
        let dx2 = table::fraction(t.axis(1), i2, a2)->0;
        let (y00, y01) = (t.cell2(i1, i2)->0, t.cell2(i1, i2 + 1)->0);
        let (y10, y11) = (t.cell2(i1 + 1, i2)->0, t.cell2(i1 + 1, i2 + 1)->0);
        lemma_cell(t, i1 * n2 + i2);
        lemma_cell(t, i1 * n2 + (i2 + 1));
        lemma_cell(t, (i1 + 1) * n2 + i2);
        lemma_cell(t, (i1 + 1) * n2 + (i2 + 1));
        lemma_bilinear(dx1, u1, dx2, u2, y00, y01, y10, y11);
        let one = F64(ONE);
        lemma_hit_narrowed(
            (one - dx1) * (one - dx2) * y00 + dx1 * (one - dx2) * y10 + dx1 * dx2 * y11 + (one - dx1) * dx2 * y01,
            v,
        );
    }
}

proof fn lemma_at_grid3(t: TableView, a1: F32, a2: F32, a3: F32, g1: int, g2: int, g3: int)
    requires
        regular(t),
        t.axes.len() == 3,
        on_grid(t, 0, a1, g1),
        on_grid(t, 1, a2, g2),
        on_grid(t, 2, a3, g3),
        t.order3(a1, a2, a3) is Some,
    ensures
        ({
            let at = (g1 * t.axis(1).len() + g2) * t.axis(2).len() + g3;
            0 <= at < t.values.len() && t.order3(a1, a2, a3)->0.is_eq(t.values[at])
        }),
{
    reveal_with_fuel(TableView::cells_from, 5);
    let (n1, n2, n3) = (t.axis(0).len() as int, t.axis(1).len() as int, t.axis(2).len() as int);
    let u1 = lemma_step(t, 0, a1, g1);
    let u2 = lemma_step(t, 1, a2, g2);
    let u3 = lemma_step(t, 2, a3, g3);
    assert(t.cells_from(3) == 1);
    assert(n3 * 1 == n3);
    assert(t.cells_from(2) == n3);
    assert(t.cells_from(1) == n2 * n3);
    assert(t.cells_from(0) == n1 * (n2 * n3));
    table::lemma_row_major(g1, g2, n1, n2);
    table::lemma_row_major(g1 * n2 + g2, g3, n1 * n2, n3);
    assert((n1 * n2) * n3 == n1 * (n2 * n3)) by (nonlinear_arith);
    let at = (g1 * n2 + g2) * n3 + g3;
    let v = t.values[at];
    assert(identities::single_finite(v));
    let i1 = table::axis_index(a1, t.axis(0));
    let i2 = table::axis_index(a2, t.axis(1));
    let i3 = table::axis_index(a3, t.axis(2));
    let (dx1, dx2, dx3) = (t.step(0, i1, a1)->0, t.step(1, i2, a2)->0, t.step(2, i3, a3)->0);
    let y0 = t.corner(i1, i2, i3, false, false, false)->0;
    let y1 = t.corner(i1, i2, i3, false, false, true)->0;
    let y2 = t.corner(i1, i2, i3, false, true, false)->0;
    let y3 = t.corner(i1, i2, i3, false, true, true)->0;
    let y4 = t.corner(i1, i2, i3, true, false, false)->0;
    let y5 = t.corner(i1, i2, i3, true, false, true)->0;
    let y6 = t.corner(i1, i2, i3, true, true, false)->0;
    let y7 = t.corner(i1, i2, i3, true, true, true)->0;
    lemma_corner_finite(t, i1, i2, i3, false, false, false);
    lemma_corner_finite(t, i1, i2, i3, false, false, true);
    lemma_corner_finite(t, i1, i2, i3, false, true, false);
    lemma_corner_finite(t, i1, i2, i3, false, true, true);
    lemma_corner_finite(t, i1, i2, i3, true, false, false);
    lemma_corner_finite(t, i1, i2, i3, true, false, true);
    lemma_corner_finite(t, i1, i2, i3, true, true, false);
    lemma_corner_finite(t, i1, i2, i3, true, true, true);
    let ys = seq![y0, y1, y2, y3, y4, y5, y6, y7];
    assert(ys[corner_place(u1, u2, u3)] == t.corner(i1, i2, i3, u1, u2, u3)->0);
    assert(t.corner(i1, i2, i3, u1, u2, u3)->0 == v.widened());
    lemma_trilinear(dx1, u1, dx2, u2, dx3, u3, ys, v);
}

} // verus!
