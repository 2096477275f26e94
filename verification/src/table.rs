//! NLDM table models: axes, values and the lookup.
//!
//! - An axis index is found by bisection over its values; a value at or below the first takes
//!   interval 0, at or above the last the last interval (`size - 2`), so a lookup outside the
//!   table extrapolates linearly from the end interval.
//! - Interpolation is in double precision with weights `1 - dx` and `dx`,
//!   `dx = (x - xl) / (xu - xl)`; in two dimensions it is `(1-dx1)(1-dx2) y00 + dx1 (1-dx2) y10 +
//!   dx1 dx2 y11 + (1-dx1) dx2 y01`, summed in that order; the result is narrowed to single
//!   precision.
//! - An axis of one value takes no interpolation along it.
//!
//! A lookup that would read outside the table or outside an axis (an empty axis, an axis value
//! that is not a number) has no value.

use vstd::prelude::*;
use crate::float32::F32;
use crate::float64::F64;

verus! {

/// 1.0.
pub const ONE: u64 = 0x3ff0_0000_0000_0000;

/// A table axis variable: the common ones, and a catch-all.
#[derive(Debug, Clone, Copy, PartialEq, Eq, Structural)]
pub enum AxisVar {
    InputNetTransition,
    InputTransitionTime,
    TotalOutputNetCapacitance,
    RelatedPinTransition,
    ConstrainedPinTransition,
    RelatedOutTotalOutputNetCapacitance,
    Other,
}

impl AxisVar {
    pub open spec fn named(s: Seq<char>) -> AxisVar {
        if s == "input_net_transition"@ {
            AxisVar::InputNetTransition
        } else if s == "input_transition_time"@ {
            AxisVar::InputTransitionTime
        } else if s == "total_output_net_capacitance"@ {
            AxisVar::TotalOutputNetCapacitance
        } else if s == "related_pin_transition"@ {
            AxisVar::RelatedPinTransition
        } else if s == "constrained_pin_transition"@ {
            AxisVar::ConstrainedPinTransition
        } else if s == "related_out_total_output_net_capacitance"@ {
            AxisVar::RelatedOutTotalOutputNetCapacitance
        } else {
            AxisVar::Other
        }
    }

    pub open spec fn capacitive(self) -> bool {
        self is TotalOutputNetCapacitance || self is RelatedOutTotalOutputNetCapacitance
    }

    pub fn parse(s: &str) -> (r: AxisVar)
        ensures
            r == AxisVar::named(s@),
    {
        if *s == *"input_net_transition" {
            AxisVar::InputNetTransition
        } else if *s == *"input_transition_time" {
            AxisVar::InputTransitionTime
        } else if *s == *"total_output_net_capacitance" {
            AxisVar::TotalOutputNetCapacitance
        } else if *s == *"related_pin_transition" {
            AxisVar::RelatedPinTransition
        } else if *s == *"constrained_pin_transition" {
            AxisVar::ConstrainedPinTransition
        } else if *s == *"related_out_total_output_net_capacitance" {
            AxisVar::RelatedOutTotalOutputNetCapacitance
        } else {
            AxisVar::Other
        }
    }

    /// True for a capacitance axis, false for a time axis.
    pub fn is_capacitance(self) -> (r: bool)
        ensures
            r == self.capacitive(),
    {
        matches!(self, AxisVar::TotalOutputNetCapacitance | AxisVar::RelatedOutTotalOutputNetCapacitance)
    }
}

#[derive(Debug, PartialEq)]
pub struct Axis {
    pub var: AxisVar,
    pub values: Vec<F32>,
}

/// What an axis holds.
#[verifier::ext_equal]
pub struct AxisView {
    pub var: AxisVar,
    pub values: Seq<F32>,
}

impl View for Axis {
    type V = AxisView;

    open spec fn view(&self) -> AxisView {
        AxisView { var: self.var, values: self.values@ }
    }
}

impl Clone for Axis {
    fn clone(&self) -> (r: Axis)
        ensures
            r@ == self@,
    {
        let values: Vec<F32> = self.values.clone();
        assert(values@ =~= self.values@);
        Axis { var: self.var, values }
    }
}

/// The last position in `(lower, upper)` that bisection finds at or below `value`; `lower` where
/// it finds none.
pub open spec fn bisect(value: F32, values: Seq<F32>, lower: int, upper: int) -> int
    decreases upper - lower,
{
    if upper - lower <= 1 {
        lower
    } else {
        let mid = (upper + lower) / 2;
        if values[mid].is_le(value) {
            bisect(value, values, mid, upper)
        } else {
            bisect(value, values, lower, mid)
        }
    }
}

/// The interval `[i, i + 1]` of an axis that a value falls in; -1 where bisection finds no axis
/// value at or below it.
pub open spec fn axis_index(value: F32, values: Seq<F32>) -> int {
    let size = values.len() as int;
    if size <= 1 || value.is_le(values[0]) {
        0
    } else if values[size - 1].is_le(value) {
        size - 2
    } else {
        bisect(value, values, -1, size)
    }
}

/// Axis values in ascending order, none of them a nan.
pub open spec fn ascending(values: Seq<F32>) -> bool {
    &&& forall|i: int| 0 <= i < values.len() ==> !(#[trigger] values[i]).nan()
    &&& forall|i: int, j: int| 0 <= i <= j < values.len() ==> (#[trigger] values[i]).is_le(#[trigger] values[j])
}

proof fn lemma_bisect(value: F32, values: Seq<F32>, lower: int, upper: int)
    requires
        -1 <= lower < upper <= values.len(),
        lower >= 0 ==> values[lower].is_le(value),
        upper < values.len() ==> !values[upper].is_le(value),
    ensures
        ({
            let i = bisect(value, values, lower, upper);
            &&& lower <= i < upper
            &&& i >= 0 ==> values[i].is_le(value)
            &&& i + 1 < values.len() ==> !values[i + 1].is_le(value)
        }),
    decreases upper - lower,
{
    if upper - lower > 1 {
        let mid = (upper + lower) / 2;
        if values[mid].is_le(value) {
            lemma_bisect(value, values, mid, upper);
        } else {
            lemma_bisect(value, values, lower, mid);
        }
    }
}

/// On an ascending axis of two or more values, a number falls in the interval that holds it; one
/// at or below the first value takes the first interval, one at or above the last the last.
pub proof fn lemma_axis_interval(value: F32, values: Seq<F32>)
    requires
        ascending(values),
        values.len() >= 2,
        !value.nan(),
    ensures
        ({
            let i = axis_index(value, values);
            &&& 0 <= i <= values.len() - 2
            &&& value.is_le(values[0]) ==> i == 0
            &&& !value.is_le(values[0]) && values[values.len() - 1].is_le(value) ==> i == values.len() - 2
            &&& values[0].is_lt(value) && value.is_lt(values[values.len() - 1]) ==> values[i].is_le(value)
                && value.is_lt(values[i + 1])
        }),
{
    reveal(F32::is_le);
    reveal(F32::is_lt);
    let size = values.len() as int;
    if !value.is_le(values[0]) && !values[size - 1].is_le(value) {
        lemma_bisect(value, values, -1, size);
        let i = axis_index(value, values);
        if i < 0 {
            assert(!values[0].is_le(value));
        }
        if i == size - 1 {
            assert(values[size - 1].is_le(value));
        }
    }
}

/// The interval `[i, i + 1]` a value falls in, by bisection; `usize::MAX` where no axis value is
/// at or below it.
pub fn find_axis_index(value: F32, values: &[F32]) -> (r: usize)
    ensures
        r == (if axis_index(value, values@) >= 0 { axis_index(value, values@) } else { usize::MAX as int }),
        -1 <= axis_index(value, values@) < usize::MAX,
{
    let size: usize = values.len();
    if size <= 1 || value.le(values[0]) {
        return 0;
    }
    if value.ge(values[size - 1]) {
        return size - 2;
    }
    let mut lower: i128 = -1;
    let mut upper: i128 = size as i128;
    while upper - lower > 1
        invariant
            size == values@.len(),
            -1 <= lower < upper <= size,
            bisect(value, values@, lower as int, upper as int) == bisect(value, values@, -1, size as int),
        decreases upper - lower,
    {
        let mid: i128 = (upper + lower) / 2;
        if value.ge(values[mid as usize]) {
            lower = mid;
        } else {
            upper = mid;
        }
    }
    if lower < 0 {
        usize::MAX
    } else {
        lower as usize
    }
}

/// A table of order 0 to 3; `values` row-major over the axes in order.
#[derive(Debug, PartialEq)]
pub struct Table {
    pub axes: Vec<Axis>,
    pub values: Vec<F32>,
}

pub open spec fn axis_views(axes: Seq<Axis>) -> Seq<AxisView> {
    Seq::new(axes.len(), |i: int| axes[i]@)
}

/// What a table holds.
#[verifier::ext_equal]
pub struct TableView {
    pub axes: Seq<AxisView>,
    pub values: Seq<F32>,
}

impl View for Table {
    type V = TableView;

    open spec fn view(&self) -> TableView {
        TableView { axes: axis_views(self.axes@), values: self.values@ }
    }
}

/// A value's place between the ends of interval `i`, from 0 to 1 inside it.
pub open spec fn fraction(values: Seq<F32>, i: int, x: F32) -> Option<F64> {
    if 0 <= i && i + 1 < values.len() {
        Some(
            (x.widened() - values[i].widened()) / (values[i + 1].widened() - values[i].widened()),
        )
    } else {
        None
    }
}

/// `(1 - dx) y0 + dx y1`, narrowed.
pub open spec fn linear(dx: F64, y0: F64, y1: F64) -> F32 {
    ((F64(ONE) - dx) * y0 + dx * y1).narrowed()
}

pub open spec fn bilinear(dx1: F64, dx2: F64, y00: F64, y01: F64, y10: F64, y11: F64) -> F32 {
    let one = F64(ONE);
    ((one - dx1) * (one - dx2) * y00 + dx1 * (one - dx2) * y10 + dx1 * dx2 * y11 + (one - dx1) * dx2
        * y01).narrowed()
}

/// Eight corners, the third axis running fastest.
pub open spec fn trilinear(dx1: F64, dx2: F64, dx3: F64, y: Seq<F64>) -> F32 {
    let one = F64(ONE);
    ((one - dx1) * (one - dx2) * (one - dx3) * y[0] + (one - dx1) * (one - dx2) * dx3 * y[1] + (one
        - dx1) * dx2 * (one - dx3) * y[2] + (one - dx1) * dx2 * dx3 * y[3] + dx1 * (one - dx2) * (one
        - dx3) * y[4] + dx1 * (one - dx2) * dx3 * y[5] + dx1 * dx2 * (one - dx3) * y[6] + dx1 * dx2
        * dx3 * y[7]).narrowed()
}

impl TableView {
    pub open spec fn axis(self, k: int) -> Seq<F32> {
        self.axes[k].values
    }

    /// The value at a row-major position.
    pub open spec fn cell(self, i: int) -> Option<F64> {
        if 0 <= i < self.values.len() {
            Some(self.values[i].widened())
        } else {
            None
        }
    }

    pub open spec fn cell2(self, i: int, j: int) -> Option<F64> {
        self.cell(i * self.axis(1).len() + j)
    }

    pub open spec fn cell3(self, i: int, j: int, k: int) -> Option<F64> {
        self.cell((i * self.axis(1).len() + j) * self.axis(2).len() + k)
    }

    pub open spec fn first(self) -> Option<F32> {
        if self.values.len() > 0 {
            Some(self.values[0])
        } else {
            None
        }
    }

    pub open spec fn order1(self, a1: F32) -> Option<F32> {
        let ax = self.axis(0);
        let i = axis_index(a1, ax);
        if ax.len() == 1 {
            self.first()
        } else {
            match (fraction(ax, i, a1), self.cell(i), self.cell(i + 1)) {
                (Some(dx), Some(y0), Some(y1)) => Some(linear(dx, y0, y1)),
                _ => None,
            }
        }
    }

    pub open spec fn order2(self, a1: F32, a2: F32) -> Option<F32> {
        let (ax1, ax2) = (self.axis(0), self.axis(1));
        let (i1, i2) = (axis_index(a1, ax1), axis_index(a2, ax2));
        if ax1.len() == 1 && ax2.len() == 1 {
            self.first()
        } else if ax1.len() == 1 {
            match (fraction(ax2, i2, a2), self.cell2(0, i2), self.cell2(0, i2 + 1)) {
                (Some(dx), Some(y0), Some(y1)) => Some(linear(dx, y0, y1)),
                _ => None,
            }
        } else if ax2.len() == 1 {
            match (fraction(ax1, i1, a1), self.cell2(i1, 0), self.cell2(i1 + 1, 0)) {
                (Some(dx), Some(y0), Some(y1)) => Some(linear(dx, y0, y1)),
                _ => None,
            }
        } else {
            match (
                fraction(ax1, i1, a1),
                fraction(ax2, i2, a2),
                self.cell2(i1, i2),
                self.cell2(i1, i2 + 1),
                self.cell2(i1 + 1, i2),
                self.cell2(i1 + 1, i2 + 1),
            ) {
                (Some(dx1), Some(dx2), Some(y00), Some(y01), Some(y10), Some(y11)) => Some(
                    bilinear(dx1, dx2, y00, y01, y10, y11),
                ),
                _ => None,
            }
        }
    }

    /// A corner of the cell at `(i1, i2, i3)`, `up` along the axes given; 0 where one of those has
    /// a single value.
    pub open spec fn corner(self, i1: int, i2: int, i3: int, up1: bool, up2: bool, up3: bool) -> Option<F64> {
        if (up1 && self.axis(0).len() == 1) || (up2 && self.axis(1).len() == 1) || (up3
            && self.axis(2).len() == 1) {
            Some(F64(0))
        } else {
            self.cell3(
                if up1 {
                    i1 + 1
                } else {
                    i1
                },
                if up2 {
                    i2 + 1
                } else {
                    i2
                },
                if up3 {
                    i3 + 1
                } else {
                    i3
                },
            )
        }
    }

    /// A value's fraction of its interval of axis `k`; 0 on an axis of one value.
    pub open spec fn step(self, k: int, i: int, x: F32) -> Option<F64> {
        if self.axis(k).len() == 1 {
            Some(F64(0))
        } else {
            fraction(self.axis(k), i, x)
        }
    }

    pub open spec fn order3(self, a1: F32, a2: F32, a3: F32) -> Option<F32> {
        let i1 = axis_index(a1, self.axis(0));
        let i2 = axis_index(a2, self.axis(1));
        let i3 = axis_index(a3, self.axis(2));
        match (self.step(0, i1, a1), self.step(1, i2, a2), self.step(2, i3, a3)) {
            (Some(dx1), Some(dx2), Some(dx3)) => match (
                self.corner(i1, i2, i3, false, false, false),
                self.corner(i1, i2, i3, false, false, true),
                self.corner(i1, i2, i3, false, true, false),
                self.corner(i1, i2, i3, false, true, true),
                self.corner(i1, i2, i3, true, false, false),
                self.corner(i1, i2, i3, true, false, true),
                self.corner(i1, i2, i3, true, true, false),
                self.corner(i1, i2, i3, true, true, true),
            ) {
                (Some(y0), Some(y1), Some(y2), Some(y3), Some(y4), Some(y5), Some(y6), Some(y7)) => Some(
                    trilinear(dx1, dx2, dx3, seq![y0, y1, y2, y3, y4, y5, y6, y7]),
                ),
                _ => None,
            },
            _ => None,
        }
    }

    /// The table's value at up to three axis values.
    pub open spec fn value_at(self, a1: F32, a2: F32, a3: F32) -> Option<F32> {
        if self.axes.len() == 0 {
            self.first()
        } else if self.axes.len() == 1 {
            self.order1(a1)
        } else if self.axes.len() == 2 {
            self.order2(a1, a2)
        } else {
            self.order3(a1, a2, a3)
        }
    }

    /// What axis `k` of a gate table is looked up with.
    pub open spec fn pick(self, k: int, in_slew: F32, load_cap: F32) -> F32 {
        if k >= self.axes.len() {
            F32(0)
        } else {
            match self.axes[k].var {
                AxisVar::InputNetTransition => in_slew,
                AxisVar::InputTransitionTime => in_slew,
                AxisVar::TotalOutputNetCapacitance => load_cap,
                _ => F32(0),
            }
        }
    }

    pub open spec fn gate_value(self, in_slew: F32, load_cap: F32) -> Option<F32> {
        self.value_at(
            self.pick(0, in_slew, load_cap),
            self.pick(1, in_slew, load_cap),
            self.pick(2, in_slew, load_cap),
        )
    }
}

impl TableView {
    /// The product of the axes' sizes from axis `k` on.
    pub open spec fn cells_from(self, k: int) -> nat
        decreases self.axes.len() - k,
    {
        if 0 <= k < self.axes.len() {
            self.axes[k].values.len() * self.cells_from(k + 1)
        } else {
            1
        }
    }

    /// Every axis has values, in ascending order, and every combination of them a table value.
    pub open spec fn complete(self) -> bool {
        &&& self.axes.len() <= 3
        &&& forall|k: int|
            0 <= k < self.axes.len() ==> (#[trigger] self.axes[k]).values.len() >= 1 && ascending(
                self.axes[k].values,
            )
        &&& self.values.len() == self.cells_from(0)
    }
}

/// An axis of one value takes no interpolation along it: what is looked up there does not matter.
pub proof fn lemma_single_value_axis(t: TableView, a1: F32, a2: F32, a3: F32, b1: F32, b2: F32, b3: F32)
    requires
        t.axes.len() > 0 && t.axis(0).len() != 1 ==> a1 == b1,
        t.axes.len() > 1 && t.axis(1).len() != 1 ==> a2 == b2,
        t.axes.len() > 2 && t.axis(2).len() != 1 ==> a3 == b3,
    ensures
        t.value_at(a1, a2, a3) == t.value_at(b1, b2, b3),
{
}

pub(crate) proof fn lemma_row_major(i: int, j: int, n: int, m: int)
    requires
        0 <= i < n,
        0 <= j < m,
    ensures
        0 <= i * m + j < n * m,
{
    assert(0 <= i * m && i * m + m <= n * m) by (nonlinear_arith)
        requires
            0 <= i < n,
            0 <= m,
    ;
}

proof fn lemma_corner(t: TableView, i1: int, i2: int, i3: int, up1: bool, up2: bool, up3: bool)
    requires
        t.axes.len() == 3,
        t.values.len() == t.axis(0).len() * (t.axis(1).len() * t.axis(2).len()),
        0 <= i1 < t.axis(0).len(),
        0 <= i2 < t.axis(1).len(),
        0 <= i3 < t.axis(2).len(),
        t.axis(0).len() == 1 || i1 + 1 < t.axis(0).len(),
        t.axis(1).len() == 1 || i2 + 1 < t.axis(1).len(),
        t.axis(2).len() == 1 || i3 + 1 < t.axis(2).len(),
    ensures
        t.corner(i1, i2, i3, up1, up2, up3) is Some,
{
    let (n1, n2, n3) = (t.axis(0).len() as int, t.axis(1).len() as int, t.axis(2).len() as int);
    if !((up1 && n1 == 1) || (up2 && n2 == 1) || (up3 && n3 == 1)) {
        let j1 = if up1 {
            i1 + 1
        } else {
            i1
        };
        let j2 = if up2 {
            i2 + 1
        } else {
            i2
        };
        let j3 = if up3 {
            i3 + 1
        } else {
            i3
        };
        lemma_row_major(j1, j2, n1, n2);
        lemma_row_major(j1 * n2 + j2, j3, n1 * n2, n3);
        assert((n1 * n2) * n3 == n1 * (n2 * n3)) by (nonlinear_arith);
    }
}

/// A complete table has a value for every lookup with numbers, inside its axes and outside.
pub proof fn lemma_lookup_in_complete_table(t: TableView, a1: F32, a2: F32, a3: F32)
    requires
        t.complete(),
        !a1.nan(),
        !a2.nan(),
        !a3.nan(),
    ensures
        t.value_at(a1, a2, a3) is Some,
{
    reveal_with_fuel(TableView::cells_from, 4);
    let n = t.axes.len();
    assert(t.cells_from(n as int) == 1);
    if n >= 1 {
        let last = t.axis(n - 1).len();
        assert(last * t.cells_from(n as int) == last) by (nonlinear_arith)
            requires
                t.cells_from(n as int) == 1,
        ;
        assert(t.cells_from(n - 1) == last);
    }
    if n >= 1 {
        assert(ascending(t.axes[0].values));
        if t.axis(0).len() >= 2 {
            lemma_axis_interval(a1, t.axis(0));
        }
    }
    if n >= 2 {
        assert(ascending(t.axes[1].values));
        if t.axis(1).len() >= 2 {
            lemma_axis_interval(a2, t.axis(1));
        }
    }
    if n == 2 {
        let (n1, n2) = (t.axis(0).len() as int, t.axis(1).len() as int);
        let (i1, i2) = (axis_index(a1, t.axis(0)), axis_index(a2, t.axis(1)));
        lemma_row_major(i1, i2, n1, n2);
        if n1 >= 2 {
            lemma_row_major(i1 + 1, i2, n1, n2);
        }
        if n2 >= 2 {
            lemma_row_major(i1, i2 + 1, n1, n2);
        }
        if n1 >= 2 && n2 >= 2 {
            lemma_row_major(i1 + 1, i2 + 1, n1, n2);
        }
    }
    if n == 3 {
        assert(ascending(t.axes[2].values));
        if t.axis(2).len() >= 2 {
            lemma_axis_interval(a3, t.axis(2));
        }
        let i1 = axis_index(a1, t.axis(0));
        let i2 = axis_index(a2, t.axis(1));
        let i3 = axis_index(a3, t.axis(2));
        lemma_corner(t, i1, i2, i3, false, false, false);
        lemma_corner(t, i1, i2, i3, false, false, true);
        lemma_corner(t, i1, i2, i3, false, true, false);
        lemma_corner(t, i1, i2, i3, false, true, true);
        lemma_corner(t, i1, i2, i3, true, false, false);
        lemma_corner(t, i1, i2, i3, true, false, true);
        lemma_corner(t, i1, i2, i3, true, true, false);
        lemma_corner(t, i1, i2, i3, true, true, true);
    }
}

fn find_fraction(values: &Vec<F32>, i: usize, x: F32) -> (r: Option<F64>)
    ensures
        i < usize::MAX ==> r == fraction(values@, i as int, x),
        i == usize::MAX ==> r is None,
{
    if values.len() > 0 && i < values.len() - 1 {
        Some((x.to_f64() - values[i].to_f64()) / (values[i + 1].to_f64() - values[i].to_f64()))
    } else {
        None
    }
}

fn interpolate(dx: F64, y0: F64, y1: F64) -> (r: F32)
    ensures
        r == linear(dx, y0, y1),
{
    ((F64(ONE) - dx) * y0 + dx * y1).to_f32()
}

impl Clone for Table {
    fn clone(&self) -> (r: Table)
        ensures
            r@ == self@,
    {
        let axes: Vec<Axis> = self.axes.clone();
        let values: Vec<F32> = self.values.clone();
        assert(axis_views(axes@) =~= axis_views(self.axes@));
        assert(values@ =~= self.values@);
        Table { axes, values }
    }
}

impl Table {
    fn cell(&self, i: usize) -> (r: Option<F64>)
        ensures
            r == self@.cell(i as int),
    {
        if i < self.values.len() {
            Some(self.values[i].to_f64())
        } else {
            None
        }
    }

    fn cell2(&self, i: usize, j: usize) -> (r: Option<F64>)
        requires
            self.axes@.len() >= 2,
        ensures
            r == self@.cell2(i as int, j as int),
    {
        let n: usize = self.axes[1].values.len();
        assert(self.values.len() <= usize::MAX);
        assert(self@.axis(1).len() == n);
        assert(i * n >= 0) by (nonlinear_arith)
            requires
                i >= 0,
                n >= 0,
        ;
        let row: usize = i.checked_mul(n)?;
        let at: usize = row.checked_add(j)?;
        self.cell(at)
    }

    fn cell3(&self, i: usize, j: usize, k: usize) -> (r: Option<F64>)
        requires
            self.axes@.len() >= 3,
            self@.axis(2).len() > 0,
        ensures
            r == self@.cell3(i as int, j as int, k as int),
    {
        let n: usize = self.axes[1].values.len();
        assert(self.values.len() <= usize::MAX);
        let m: usize = self.axes[2].values.len();
        assert(self@.axis(1).len() == n && self@.axis(2).len() == m);
        let ghost plane = i * n + j;
        proof {
            assert(i * n >= 0) by (nonlinear_arith)
                requires
                    i >= 0,
                    n >= 0,
            ;
            assert(plane * m >= plane) by (nonlinear_arith)
                requires
                    plane >= 0,
                    m >= 1,
            ;
        }
        let row: usize = i.checked_mul(n)?;
        let column: usize = row.checked_add(j)?;
        let depth: usize = column.checked_mul(m)?;
        let at: usize = depth.checked_add(k)?;
        self.cell(at)
    }

    fn first(&self) -> (r: Option<F32>)
        ensures
            r == self@.first(),
    {
        if self.values.len() > 0 {
            Some(self.values[0])
        } else {
            None
        }
    }

    fn order1(&self, a1: F32) -> (r: Option<F32>)
        requires
            self.axes@.len() >= 1,
        ensures
            r == self@.order1(a1),
    {
        let ax: &Vec<F32> = &self.axes[0].values;
        assert(ax@ == self@.axis(0));
        if ax.len() == 1 {
            return self.first();
        }
        let i: usize = find_axis_index(a1, ax.as_slice());
        let dx: F64 = find_fraction(ax, i, a1)?;
        let y0: F64 = self.cell(i)?;
        let y1: F64 = self.cell(i + 1)?;
        Some(interpolate(dx, y0, y1))
    }

    fn order2(&self, a1: F32, a2: F32) -> (r: Option<F32>)
        requires
            self.axes@.len() >= 2,
        ensures
            r == self@.order2(a1, a2),
    {
        let ax1: &Vec<F32> = &self.axes[0].values;
        let ax2: &Vec<F32> = &self.axes[1].values;
        assert(ax1@ == self@.axis(0));
        assert(ax2@ == self@.axis(1));
        if ax1.len() == 1 {
            if ax2.len() == 1 {
                return self.first();
            }
            let i2: usize = find_axis_index(a2, ax2.as_slice());
            let dx2: F64 = find_fraction(ax2, i2, a2)?;
            let y00: F64 = self.cell2(0, i2)?;
            let y01: F64 = self.cell2(0, i2 + 1)?;
            return Some(interpolate(dx2, y00, y01));
        }
        if ax2.len() == 1 {
            let i1: usize = find_axis_index(a1, ax1.as_slice());
            let dx1: F64 = find_fraction(ax1, i1, a1)?;
            let y00: F64 = self.cell2(i1, 0)?;
            let y10: F64 = self.cell2(i1 + 1, 0)?;
            return Some(interpolate(dx1, y00, y10));
        }
        let i1: usize = find_axis_index(a1, ax1.as_slice());
        let i2: usize = find_axis_index(a2, ax2.as_slice());
        let dx1: F64 = find_fraction(ax1, i1, a1)?;
        let dx2: F64 = find_fraction(ax2, i2, a2)?;
        let y00: F64 = self.cell2(i1, i2)?;
        let y10: F64 = self.cell2(i1 + 1, i2)?;
        let y11: F64 = self.cell2(i1 + 1, i2 + 1)?;
        let y01: F64 = self.cell2(i1, i2 + 1)?;
        let one: F64 = F64(ONE);
        Some(
            ((one - dx1) * (one - dx2) * y00 + dx1 * (one - dx2) * y10 + dx1 * dx2 * y11 + (one - dx1) * dx2
                * y01).to_f32(),
        )
    }

    fn step(&self, k: usize, i: usize, x: F32) -> (r: Option<F64>)
        requires
            k < self.axes@.len(),
        ensures
            i < usize::MAX ==> r == self@.step(k as int, i as int, x),
            i == usize::MAX && self@.axis(k as int).len() != 1 ==> r is None,
    {
        let ax: &Vec<F32> = &self.axes[k].values;
        assert(ax@ == self@.axis(k as int));
        if ax.len() == 1 {
            Some(F64(0))
        } else {
            find_fraction(ax, i, x)
        }
    }

    fn corner(&self, i1: usize, i2: usize, i3: usize, up1: bool, up2: bool, up3: bool) -> (r: Option<F64>)
        requires
            self.axes@.len() >= 3,
            self@.axis(2).len() > 0,
            i1 < usize::MAX,
            i2 < usize::MAX,
            i3 < usize::MAX,
        ensures
            r == self@.corner(i1 as int, i2 as int, i3 as int, up1, up2, up3),
    {
        if (up1 && self.axes[0].values.len() == 1) || (up2 && self.axes[1].values.len() == 1) || (up3
            && self.axes[2].values.len() == 1) {
            return Some(F64(0));
        }
        let j1: usize = if up1 {
            i1 + 1
        } else {
            i1
        };
        let j2: usize = if up2 {
            i2 + 1
        } else {
            i2
        };
        let j3: usize = if up3 {
            i3 + 1
        } else {
            i3
        };
        self.cell3(j1, j2, j3)
    }

    fn order3(&self, a1: F32, a2: F32, a3: F32) -> (r: Option<F32>)
        requires
            self.axes@.len() >= 3,
        ensures
            r == self@.order3(a1, a2, a3),
    {
        assert(self.axes@[0].values@ == self@.axis(0));
        assert(self.axes@[1].values@ == self@.axis(1));
        assert(self.axes@[2].values@ == self@.axis(2));
        let i1: usize = find_axis_index(a1, self.axes[0].values.as_slice());
        let i2: usize = find_axis_index(a2, self.axes[1].values.as_slice());
        let i3: usize = find_axis_index(a3, self.axes[2].values.as_slice());
        let dx1: F64 = self.step(0, i1, a1)?;
        let dx2: F64 = self.step(1, i2, a2)?;
        let dx3: F64 = self.step(2, i3, a3)?;
        let y000: F64 = self.corner(i1, i2, i3, false, false, false)?;
        let y001: F64 = self.corner(i1, i2, i3, false, false, true)?;
        let y010: F64 = self.corner(i1, i2, i3, false, true, false)?;
        let y011: F64 = self.corner(i1, i2, i3, false, true, true)?;
        let y100: F64 = self.corner(i1, i2, i3, true, false, false)?;
        let y101: F64 = self.corner(i1, i2, i3, true, false, true)?;
        let y110: F64 = self.corner(i1, i2, i3, true, true, false)?;
        let y111: F64 = self.corner(i1, i2, i3, true, true, true)?;
        let one: F64 = F64(ONE);
        Some(
            ((one - dx1) * (one - dx2) * (one - dx3) * y000 + (one - dx1) * (one - dx2) * dx3 * y001 + (one
                - dx1) * dx2 * (one - dx3) * y010 + (one - dx1) * dx2 * dx3 * y011 + dx1 * (one - dx2) * (one
                - dx3) * y100 + dx1 * (one - dx2) * dx3 * y101 + dx1 * dx2 * (one - dx3) * y110 + dx1 * dx2
                * dx3 * y111).to_f32(),
        )
    }

    /// The table's value at up to three axis values; none where the lookup reads outside the table.
    pub fn find_value(&self, a1: F32, a2: F32, a3: F32) -> (r: Option<F32>)
        ensures
            r == self@.value_at(a1, a2, a3),
    {
        match self.axes.len() {
            0 => self.first(),
            1 => self.order1(a1),
            2 => self.order2(a1, a2),
            _ => self.order3(a1, a2, a3),
        }
    }

    fn pick(&self, k: usize, in_slew: F32, load_cap: F32) -> (r: F32)
        ensures
            r == self@.pick(k as int, in_slew, load_cap),
    {
        if k >= self.axes.len() {
            return F32(0);
        }
        match self.axes[k].var {
            AxisVar::InputNetTransition | AxisVar::InputTransitionTime => in_slew,
            AxisVar::TotalOutputNetCapacitance => load_cap,
            _ => F32(0),
        }
    }

    /// Each axis takes the input slew or the load cap by its variable (a related-output cap is 0
    /// here).
    pub fn gate_value(&self, in_slew: F32, load_cap: F32) -> (r: Option<F32>)
        ensures
            r == self@.gate_value(in_slew, load_cap),
    {
        self.find_value(
            self.pick(0, in_slew, load_cap),
            self.pick(1, in_slew, load_cap),
            self.pick(2, in_slew, load_cap),
        )
    }
}

/// A gate model: a delay table and a slew table.
#[derive(Debug, PartialEq)]
pub struct GateModel {
    pub delay: Option<Table>,
    pub slew: Option<Table>,
}

/// What a gate model holds.
#[verifier::ext_equal]
pub struct GateModelView {
    pub delay: Option<TableView>,
    pub slew: Option<TableView>,
}

pub open spec fn table_view(t: Option<Table>) -> Option<TableView> {
    match t {
        Some(t) => Some(t@),
        None => None,
    }
}

impl View for GateModel {
    type V = GateModelView;

    open spec fn view(&self) -> GateModelView {
        GateModelView { delay: table_view(self.delay), slew: table_view(self.slew) }
    }
}

impl GateModelView {
    /// The delay and slew for an input slew and load cap.
    pub open spec fn gate_delay(self, in_slew: F32, load_cap: F32) -> Option<(F32, F32)> {
        let delay = match self.delay {
            Some(t) => t.gate_value(in_slew, load_cap),
            None => Some(F32(0)),
        };
        let slew = match self.slew {
            Some(t) => t.gate_value(in_slew, load_cap),
            None => Some(F32(0)),
        };
        match (delay, slew) {
            (Some(d), Some(s)) => Some(
                (
                    d,
                    if self.slew is Some {
                        s.larger(F32(0))
                    } else {
                        s
                    },
                ),
            ),
            _ => None,
        }
    }
}

impl Clone for GateModel {
    fn clone(&self) -> (r: GateModel)
        ensures
            r@ == self@,
    {
        let delay: Option<Table> = match &self.delay {
            Some(t) => Some(t.clone()),
            None => None,
        };
        let slew: Option<Table> = match &self.slew {
            Some(t) => Some(t.clone()),
            None => None,
        };
        GateModel { delay, slew }
    }
}

impl GateModel {
    /// The delay and slew for an input slew and load cap; a negative slew clips to 0. (Process,
    /// voltage and temperature `k_` factors are not applied.) None where a lookup reads outside
    /// its table.
    pub fn gate_delay(&self, in_slew: F32, load_cap: F32) -> (r: Option<(F32, F32)>)
        ensures
            r == self@.gate_delay(in_slew, load_cap),
    {
        let delay: F32 = match &self.delay {
            Some(t) => t.gate_value(in_slew, load_cap)?,
            None => F32(0),
        };
        let slew: F32 = match &self.slew {
            Some(t) => t.gate_value(in_slew, load_cap)?.max(F32(0)),
            None => F32(0),
        };
        Some((delay, slew))
    }
}

} // verus!
