//! Operations on double precision numbers that are exact: a single precision number widened and
//! narrowed again, a number times one or plus zero, a difference over itself.

use vstd::prelude::*;
use vstd::arithmetic::power2::{lemma2_to64, lemma2_to64_rest, lemma_pow2_adds, lemma_pow2_pos, pow2};
use crate::exact;
use crate::float32::F32;
use crate::float64::F64;
use crate::magnitude;
use crate::rounding;
use crate::table::ONE;

verus! {

/// Neither infinite nor a nan.
pub open spec fn finite(x: F64) -> bool {
    x.magnitude() < 0x7ff0_0000_0000_0000
}

/// Neither infinite nor a nan, in single precision.
pub open spec fn single_finite(x: F32) -> bool {
    x.magnitude() < 0x7f80_0000
}

/// A count up to `2^1203` is finite in double precision.
pub(crate) proof fn lemma_in_range(n: nat)
    requires
        n <= pow2(1203),
    ensures
        rounding::round(53, 0x7ff0_0000_0000_0000, n, 1) < 0x7ff0_0000_0000_0000,
        n > 0 ==> rounding::round(53, 0x7ff0_0000_0000_0000, n, 1) > 0,
{
    let b: nat = 1152 * 0x10_0000_0000_0000;
    lemma2_to64();
    lemma2_to64_rest();
    assert(pow2(52) == 0x10_0000_0000_0000);
    assert(b / 0x10_0000_0000_0000 == 1152 && b % 0x10_0000_0000_0000 == 0);
    lemma_pow2_adds(52, 1151);
    assert(magnitude::units(53, b) == pow2(1203));
    exact::lemma_round_beside(53, 0x7ff0_0000_0000_0000, n, 1, b);
    if n > 0 {
        assert(magnitude::units(53, 1) == 1);
        exact::lemma_round_beside(53, 0x7ff0_0000_0000_0000, n, 1, 1);
    }
}

/// A single precision number has under `2^277` units.
proof fn lemma_single_units(x: F32)
    requires
        single_finite(x),
    ensures
        x.units() < pow2(277),
        x.units() == 0 <==> x.zero(),
{
    let b: nat = 0x7f80_0000;
    lemma2_to64();
    assert(pow2(23) == 0x80_0000);
    assert(b / 0x80_0000 == 255 && b % 0x80_0000 == 0);
    lemma_pow2_adds(23, 254);
    assert(magnitude::units(24, b) == pow2(277));
    magnitude::lemma_units_grow(24, x.magnitude(), b);
    if x.magnitude() > 0 {
        magnitude::lemma_units_grow(24, 0, x.magnitude());
    }
}

/// A single precision number is a number of few bits times a power of two.
pub(crate) proof fn lemma_single_parts(x: F32) -> (r: (nat, nat))
    ensures
        x.units() == r.0 * pow2(r.1),
        r.0 < 0x100_0000,
{
    let h = pow2(23);
    lemma2_to64();
    let b = x.magnitude();
    if b < h {
        assert(b * 1 == b);
        (b, 0)
    } else {
        assert(b % 0x80_0000 < 0x80_0000);
        ((h + b % h), (b / h - 1) as nat)
    }
}

/// Widening is exact, and narrowing undoes it.
pub proof fn lemma_widened_is_exact(x: F32)
    requires
        single_finite(x),
    ensures
        finite(x.widened()),
        x.widened().negative() == x.negative(),
        x.widened().units() == x.units() * pow2(925),
        x.widened().zero() <==> x.zero(),
        x.widened().narrowed() == x,
{
    reveal(F32::widened);
    reveal(F64::narrowed);
    let u = x.units();
    let w = pow2(925);
    let n = u * w;
    lemma_single_units(x);
    lemma_pow2_pos(925);
    lemma_pow2_pos(52);
    lemma_pow2_pos(23);
    if x.zero() {
        assert(0 * w == 0);
    } else {
        let (m, k) = lemma_single_parts(x);
        lemma2_to64();
        lemma2_to64_rest();
        lemma_pow2_adds(277, 925);
        lemma_pow2_adds(1202, 1);
        assert(0 < n <= pow2(277) * w) by (nonlinear_arith)
            requires
                n == u * w,
                0 < u <= pow2(277),
                w > 0,
        ;
        assert(n <= pow2(1203));
        lemma_in_range(n);
        lemma_pow2_adds(k, 925);
        assert(n == m * pow2(k + 925)) by (nonlinear_arith)
            requires
                n == u * w,
                u == m * pow2(k),
                pow2(k + 925) == pow2(k) * w,
        ;
        exact::lemma_round_keeps(53, 0x7ff0_0000_0000_0000, m, k + 925);
        exact::lemma_round_of_units(24, 0x7f80_0000, x.magnitude());
        exact::lemma_round_scale(24, 0x7f80_0000, u, 1, w);
        assert(1 * w == w);
    }
}

/// A number that was narrowed is the same when it is widened and narrowed again.
pub proof fn lemma_narrowed_once(x: F64)
    ensures
        x.narrowed().widened().narrowed() == x.narrowed(),
{
    let y = x.narrowed();
    if single_finite(y) {
        lemma_widened_is_exact(y);
    } else {
        reveal(F32::widened);
        reveal(F64::narrowed);
        if !x.nan() && !x.infinite() && !x.zero() {
            assert(rounding::round(24, 0x7f80_0000, x.units(), pow2(925)) <= 0x7f80_0000);
        }
    }
}

proof fn lemma_one()
    ensures
        finite(F64(ONE)),
        !F64(ONE).negative(),
        !F64(ONE).zero(),
        F64(ONE).units() == pow2(1074),
{
    lemma2_to64();
    lemma2_to64_rest();
    assert(pow2(52) == 0x10_0000_0000_0000);
    assert(0x3ff0_0000_0000_0000nat / 0x10_0000_0000_0000 == 1023);
    assert(0x3ff0_0000_0000_0000nat % 0x10_0000_0000_0000 == 0);
    lemma_pow2_adds(52, 1022);
}

pub(crate) proof fn lemma_units_positive(x: F64)
    ensures
        x.units() == 0 <==> x.zero(),
{
    lemma_pow2_pos(52);
    if x.magnitude() > 0 {
        magnitude::lemma_units_grow(53, 0, x.magnitude());
    }
}

/// One times a number is the number; a zero times a number is a zero.
pub proof fn lemma_times(w: F64, y: F64)
    requires
        finite(y),
    ensures
        w == F64(ONE) ==> w * y == y,
        w.zero() ==> (w * y).zero(),
{
    reveal(F64::spec_mul);
    if w == F64(ONE) {
        lemma_one();
        if !y.zero() {
            let (u, d) = (y.units(), pow2(1074));
            lemma_pow2_pos(1074);
            exact::lemma_round_of_units(53, 0x7ff0_0000_0000_0000, y.magnitude());
            exact::lemma_round_scale(53, 0x7ff0_0000_0000_0000, u, 1, d);
            assert(d * u == u * d && 1 * d == d) by (nonlinear_arith);
        }
    }
}

/// A number plus a zero is the number, but for the sign of zero.
pub proof fn lemma_plus_zero(a: F64, b: F64)
    requires
        finite(a),
        finite(b),
    ensures
        b.zero() && !a.zero() ==> a + b == a,
        a.zero() && !b.zero() ==> a + b == b,
        a.zero() && b.zero() ==> (a + b).zero(),
{
    reveal(F64::spec_add);
    lemma_units_positive(a);
    lemma_units_positive(b);
    exact::lemma_round_of_units(53, 0x7ff0_0000_0000_0000, a.magnitude());
    exact::lemma_round_of_units(53, 0x7ff0_0000_0000_0000, b.magnitude());
}

/// One less a zero is one, and one less one a zero.
pub proof fn lemma_rest(x: F64)
    ensures
        x.zero() ==> F64(ONE) - x == F64(ONE),
        x == F64(ONE) ==> (F64(ONE) - x).zero(),
{
    reveal(F64::spec_add);
    reveal(F64::spec_neg);
    lemma_one();
    lemma_units_positive(x);
    lemma_pow2_pos(1074);
    exact::lemma_round_of_units(53, 0x7ff0_0000_0000_0000, ONE as nat);
    if x.zero() {
        let y = x.spec_neg();
        assert(y.zero());
        lemma_units_positive(y);
    }
}

/// Where a number lies between two others: at the lower a zero part of the way, at the upper the
/// whole.
pub proof fn lemma_ends(x: F32, lo: F32, hi: F32)
    requires
        single_finite(x),
        single_finite(lo),
        single_finite(hi),
        lo.is_lt(hi),
    ensures
        ({
            let way = (x.widened() - lo.widened()) / (hi.widened() - lo.widened());
            &&& x.is_eq(lo) ==> way.zero()
            &&& x.is_eq(hi) ==> way == F64(ONE)
        }),
{
    reveal(F64::spec_add);
    reveal(F64::spec_neg);
    reveal(F64::spec_euclidean_or_real_div);
    crate::float32::lemma_order_is_numeric(lo, hi);
    crate::float32::lemma_order_is_numeric(x, lo);
    crate::float32::lemma_order_is_numeric(x, hi);
    lemma_single_eq(x, lo);
    lemma_single_eq(x, hi);
    lemma_widened_is_exact(x);
    lemma_widened_is_exact(lo);
    lemma_widened_is_exact(hi);
    lemma_single_units(lo);
    lemma_single_units(hi);
    let w = pow2(925);
    lemma_pow2_pos(925);
    let (a, b, c) = (lo.value(), hi.value(), x.value());
    let (p, q, r) = (lo.widened(), hi.widened(), x.widened());
    assert(p.value() == a * w) by (nonlinear_arith)
        requires
            (p.value() == p.units() && a == lo.units()) || (p.value() == -p.units() && a == -lo.units()),
            p.units() == lo.units() * w,
    ;
    assert(q.value() == b * w) by (nonlinear_arith)
        requires
            (q.value() == q.units() && b == hi.units()) || (q.value() == -q.units() && b == -hi.units()),
            q.units() == hi.units() * w,
    ;
    assert(r.value() == c * w) by (nonlinear_arith)
        requires
            (r.value() == r.units() && c == x.units()) || (r.value() == -r.units() && c == -x.units()),
            r.units() == x.units() * w,
    ;
    let s = (b - a) * w;
    lemma_pow2_adds(277, 1);
    lemma_pow2_adds(278, 925);
    lemma2_to64();
    assert(0 < s <= pow2(278) * w) by (nonlinear_arith)
        requires
            s == (b - a) * w,
            0 < b - a <= pow2(278),
            w > 0,
    ;
    let gap = q - p;
    let n = p.spec_neg();
    assert(n.value() == -p.value());
    assert(q.value() + n.value() == s) by (nonlinear_arith)
        requires
            q.value() == b * w,
            n.value() == -(a * w),
            s == (b - a) * w,
    ;
    lemma_in_range(s as nat);
    assert(gap == F64::rounded(false, s as nat, 1));
    assert(finite(gap) && !gap.negative() && !gap.zero());
    let reach = r - p;
    assert(reach == r + n);
    if c == a {
        assert(r.value() + n.value() == 0);
        assert(reach.zero());
        lemma_units_positive(gap);
    }
    if c == b {
        assert(r.value() + n.value() == s);
        assert(reach == gap);
        lemma_units_positive(gap);
        let (u, d) = (gap.units(), pow2(1074));
        lemma_one();
        lemma_pow2_pos(1074);
        exact::lemma_round_of_units(53, 0x7ff0_0000_0000_0000, ONE as nat);
        exact::lemma_round_scale(53, 0x7ff0_0000_0000_0000, d, 1, u);
        assert(u * d == d * u && 1 * u == u) by (nonlinear_arith);
    }
}

proof fn lemma_single_eq(a: F32, b: F32)
    requires
        single_finite(a),
        single_finite(b),
    ensures
        a.is_eq(b) ==> a.value() == b.value(),
{
    reveal(F32::is_eq);
    lemma_single_units(a);
    lemma_single_units(b);
}

} // verus!
