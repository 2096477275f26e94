//! How the edges of a clock's cycles lie to each other, as the setup required time reads them.
//!
//! Sums of single precision times are whole numbers of the least single precision number: the
//! proofs count in it.

use vstd::prelude::*;
use vstd::arithmetic::power2::{lemma2_to64, lemma2_to64_rest, lemma_pow2_adds, lemma_pow2_pos, pow2};
use crate::exact;
use crate::float32;
use crate::float32::F32;
use crate::float64::F64;
use crate::fuzzy;
use crate::fuzzy::RELATIVE_TOLERANCE;
use crate::identities;
use crate::magnitude;
use crate::rounding;
use crate::sdc;
use crate::sdc::ClockView;

verus! {

/// A double at or above 0 that is `n` times the least single precision number.
spec fn counts(x: F64, n: nat) -> bool {
    !x.negative() && x.magnitude() < 0x7ff0_0000_0000_0000 && x.units() == n * pow2(925)
}

spec fn double_bits(n: nat) -> nat {
    rounding::round(53, 0x7ff0_0000_0000_0000, n * pow2(925), 1)
}

/// The count that remains of `n` in double precision.
spec fn in_double(n: nat) -> nat {
    magnitude::units(53, double_bits(n)) / pow2(925)
}

spec fn single_bits(n: nat) -> nat {
    rounding::round(24, 0x7f80_0000, n, 1)
}

/// The count that remains of `n` in single precision.
spec fn in_single(n: nat) -> nat {
    magnitude::units(24, single_bits(n))
}

proof fn lemma_of_multiple(m: nat, w: nat)
    requires
        w > 0,
    ensures
        (m * w) / w == m,
{
    vstd::arithmetic::div_mod::lemma_div_by_multiple(m as int, w as int);
}

/// Counts in reach stay finite in double precision.
proof fn lemma_double_is_finite(n: nat)
    requires
        n <= pow2(277),
    ensures
        double_bits(n) < 0x7ff0_0000_0000_0000,
{
    let b: nat = 1151 * 0x10_0000_0000_0000;
    lemma2_to64();
    lemma2_to64_rest();
    vstd::arithmetic::div_mod::lemma_fundamental_div_mod_converse(b as int, 0x10_0000_0000_0000, 1151, 0);
    assert(pow2(52) == 0x10_0000_0000_0000);
    lemma_pow2_adds(52, 1150);
    lemma_pow2_adds(277, 925);
    assert(magnitude::units(53, b) == pow2(1202));
    assert(n * pow2(925) <= pow2(277) * pow2(925)) by (nonlinear_arith)
        requires
            n <= pow2(277),
    ;
    exact::lemma_round_beside(53, 0x7ff0_0000_0000_0000, n * pow2(925), 1, b);
}

/// Double precision moves a count by at most one part in `2^53`.
proof fn lemma_in_double(n: nat)
    requires
        n <= pow2(277),
    ensures
        double_bits(n) < 0x7ff0_0000_0000_0000,
        magnitude::units(53, double_bits(n)) == in_double(n) * pow2(925),
        (in_double(n) - n) * 0x20_0000_0000_0000 <= n,
        (n - in_double(n)) * 0x20_0000_0000_0000 <= n,
        n < 0x20_0000_0000_0000 ==> in_double(n) == n,
{
    let w = pow2(925);
    let num = n * w;
    let u = magnitude::units(53, double_bits(n));
    lemma_double_is_finite(n);
    lemma2_to64();
    lemma2_to64_rest();
    lemma_pow2_pos(925);
    if n < 0x20_0000_0000_0000 {
        exact::lemma_round_keeps(53, 0x7ff0_0000_0000_0000, n, 925);
        lemma_of_multiple(n, w);
    } else {
        let t = rounding::last_place(53, num, 1);
        exact::lemma_last_place_bounds(53, num, 1);
        exact::lemma_round_is(53, 0x7ff0_0000_0000_0000, num, 1);
        if t < 925 {
            lemma_pow2_adds(53, 925);
            vstd::arithmetic::power2::lemma_pow2_strictly_increases(t + 53, 925 + 53);
            assert(num >= pow2(53) * w) by (nonlinear_arith)
                requires
                    num == n * w,
                    n >= pow2(53),
            ;
        }
        let q = rounding::nearest_even(num, 1 * pow2(t));
        let k = (t - 925) as nat;
        lemma_pow2_adds(k, 925);
        let m = q * pow2(k);
        assert(u == m * w) by (nonlinear_arith)
            requires
                u == q * (pow2(k) * w),
                m == q * pow2(k),
        ;
        lemma_of_multiple(m, w);
        exact::lemma_round_error(53, 0x7ff0_0000_0000_0000, num, 1);
        let d = u * 1 - num;
        let c = m - n;
        assert(d == c * w) by (nonlinear_arith)
            requires
                d == u - num,
                u == m * w,
                num == n * w,
                c == m - n,
        ;
        assert(c * 0x20_0000_0000_0000 <= n && -c * 0x20_0000_0000_0000 <= n) by (nonlinear_arith)
            requires
                d == c * w,
                num == n * w,
                w > 0,
                d * 0x20_0000_0000_0000 <= num,
                -d * 0x20_0000_0000_0000 <= num,
        ;
    }
}

/// Double precision keeps the order of counts.
proof fn lemma_in_double_grows(a: nat, b: nat)
    requires
        a <= b,
        b <= pow2(277),
    ensures
        in_double(a) <= in_double(b),
{
    let w = pow2(925);
    lemma_pow2_pos(925);
    lemma_in_double(a);
    lemma_in_double(b);
    assert(a * w <= b * w) by (nonlinear_arith)
        requires
            a <= b,
    ;
    exact::lemma_round_grows(53, 0x7ff0_0000_0000_0000, a * w, b * w, 1);
    if double_bits(a) < double_bits(b) {
        magnitude::lemma_units_grow(53, double_bits(a), double_bits(b));
    }
    let (x, y) = (in_double(a), in_double(b));
    assert(x <= y) by (nonlinear_arith)
        requires
            x * w <= y * w,
            w > 0,
    ;
}

/// Double precision keeps a count of few bits.
proof fn lemma_double_keeps(m: nat, k: nat)
    requires
        m < 0x20_0000_0000_0000,
        m * pow2(k) <= pow2(277),
    ensures
        in_double(m * pow2(k)) == m * pow2(k),
{
    let n = m * pow2(k);
    lemma2_to64();
    lemma2_to64_rest();
    lemma_double_is_finite(n);
    lemma_pow2_adds(k, 925);
    lemma_pow2_pos(925);
    assert(n * pow2(925) == m * pow2(k + 925)) by (nonlinear_arith)
        requires
            n == m * pow2(k),
            pow2(k + 925) == pow2(k) * pow2(925),
    ;
    exact::lemma_round_keeps(53, 0x7ff0_0000_0000_0000, m, k + 925);
    lemma_of_multiple(n, pow2(925));
}

/// Single precision moves a count by at most one part in `2^24`.
proof fn lemma_in_single(n: nat)
    requires
        n <= pow2(276),
    ensures
        single_bits(n) < 0x7f80_0000,
        (in_single(n) - n) * 0x100_0000 <= n,
        (n - in_single(n)) * 0x100_0000 <= n,
{
    let b: nat = 254 * 0x80_0000;
    lemma2_to64();
    lemma2_to64_rest();
    assert(b / 0x80_0000 == 254 && b % 0x80_0000 == 0);
    assert(pow2(23) == 0x80_0000);
    lemma_pow2_adds(23, 253);
    assert(magnitude::units(24, b) == pow2(276));
    exact::lemma_round_beside(24, 0x7f80_0000, n, 1, b);
    exact::lemma_round_error(24, 0x7f80_0000, n, 1);
}

/// Single precision keeps the order of counts.
proof fn lemma_in_single_grows(a: nat, b: nat)
    requires
        a <= b,
    ensures
        single_bits(a) <= single_bits(b),
        in_single(a) <= in_single(b),
{
    exact::lemma_round_grows(24, 0x7f80_0000, a, b, 1);
    if single_bits(a) < single_bits(b) {
        magnitude::lemma_units_grow(24, single_bits(a), single_bits(b));
    }
}

proof fn lemma_widened(x: F32)
    requires
        !x.negative(),
        x.units() <= pow2(277),
        x.magnitude() < 0x7f80_0000,
    ensures
        counts(x.widened(), x.units()),
        in_double(x.units()) == x.units(),
        x.widened().narrowed() == x,
        single_bits(x.units()) == x.0,
{
    reveal(F32::widened);
    reveal(F64::narrowed);
    let n = x.units();
    let (m, k) = identities::lemma_single_parts(x);
    lemma_double_keeps(m, k);
    lemma_in_double(n);
    lemma_pow2_pos(925);
    lemma_pow2_pos(23);
    exact::lemma_round_of_units(24, 0x7f80_0000, x.magnitude());
    if x.zero() {
        assert(0 * pow2(925) == 0);
        lemma_pow2_pos(52);
    } else {
        magnitude::lemma_units_grow(24, 0, x.magnitude());
        assert(n * pow2(925) > 0) by (nonlinear_arith)
            requires
                n > 0,
                pow2(925) > 0,
        ;
        lemma_pow2_pos(52);
        exact::lemma_round_scale(24, 0x7f80_0000, n, 1, pow2(925));
        assert(1 * pow2(925) == pow2(925));
    }
}

proof fn lemma_plus(x: F64, y: F64, n: nat, m: nat)
    requires
        counts(x, n),
        counts(y, m),
        n + m <= pow2(277),
    ensures
        counts(x + y, in_double(n + m)),
{
    reveal(F64::spec_add);
    lemma_in_double(n + m);
    lemma_pow2_pos(52);
    lemma_pow2_pos(925);
    lemma_in_double(0);
    let w = pow2(925);
    assert(n * w + m * w == (n + m) * w && 0 * w == 0) by (nonlinear_arith);
    if n + m == 0 {
        assert(n == 0 && m == 0);
    } else {
        assert((n + m) * w > 0) by (nonlinear_arith)
            requires
                n + m > 0,
                w > 0,
        ;
    }
}

proof fn lemma_minus(x: F64, y: F64, n: nat, m: nat)
    requires
        counts(x, n),
        counts(y, m),
        m <= n <= pow2(277),
    ensures
        counts(x - y, in_double((n - m) as nat)),
{
    reveal(F64::spec_add);
    reveal(F64::spec_neg);
    lemma_in_double((n - m) as nat);
    lemma_pow2_pos(52);
    lemma_pow2_pos(925);
    lemma_in_double(0);
    let w = pow2(925);
    let d = n - m;
    assert(n * w - m * w == d * w && 0 * w == 0) by (nonlinear_arith)
        requires
            d == n - m,
    ;
    if n != m {
        assert(d * w > 0) by (nonlinear_arith)
            requires
                d > 0,
                w > 0,
        ;
    }
}

proof fn lemma_narrowed(x: F64, n: nat)
    requires
        counts(x, n),
        n <= pow2(276),
    ensures
        x.narrowed() == F32(single_bits(n) as u32),
        !x.narrowed().negative(),
        x.narrowed().magnitude() == single_bits(n),
        x.narrowed().magnitude() < 0x7f80_0000,
        x.narrowed().units() == in_single(n),
{
    reveal(F64::narrowed);
    lemma_in_single(n);
    lemma_pow2_pos(52);
    lemma_pow2_pos(23);
    lemma_pow2_pos(925);
    let w = pow2(925);
    if x.zero() {
        assert(n == 0) by (nonlinear_arith)
            requires
                n * w == 0,
                w > 0,
        ;
        exact::lemma_round_of_units(24, 0x7f80_0000, 0);
    } else {
        exact::lemma_round_scale(24, 0x7f80_0000, n, 1, w);
        assert(1 * w == w);
    }
}

/// A clock whose period is a number above 0 that three periods do not take out of range.
pub open spec fn in_range(c: ClockView) -> bool {
    0 < c.period.0 <= 0x7e00_0000
}

proof fn lemma_period(c: ClockView)
    requires
        in_range(c),
    ensures
        0 < c.period.units() <= pow2(274),
        4 * c.period.units() <= pow2(276),
        pow2(277) == 2 * pow2(276),
{
    let b: nat = 252 * 0x80_0000;
    lemma2_to64();
    assert(b / 0x80_0000 == 252 && b % 0x80_0000 == 0);
    lemma_pow2_adds(23, 251);
    lemma_pow2_adds(274, 2);
    lemma_pow2_adds(276, 1);
    assert(magnitude::units(24, b) == pow2(274));
    magnitude::lemma_units_grow(24, 0, c.period.magnitude());
    if c.period.magnitude() < b {
        magnitude::lemma_units_grow(24, c.period.magnitude(), b);
    }
}

proof fn lemma_cycle_start(c: ClockView, n: int)
    requires
        in_range(c),
        0 <= n <= 2,
    ensures
        counts(c.cycle_start(n), (n * c.period.units()) as nat),
{
    reveal(F64::spec_mul);
    lemma_period(c);
    let p = c.period.units();
    let w = pow2(925);
    lemma_widened(c.period);
    lemma2_to64();
    lemma2_to64_rest();
    lemma_pow2_pos(925);
    lemma_pow2_pos(1074);
    if n == 0 {
        assert(0 * w == 0);
    } else {
        let one = sdc::cycle_number(n);
        let b: nat = (1022 + n) as nat * 0x10_0000_0000_0000;
        assert(one.magnitude() == b);
        vstd::arithmetic::div_mod::lemma_fundamental_div_mod_converse(
            b as int,
            0x10_0000_0000_0000,
            1022 + n,
            0,
        );
        lemma_pow2_adds(52, (1021 + n) as nat);
        lemma_pow2_adds(1074, 1);
        let u = c.period.widened().units();
        if n == 1 {
            assert(one.units() == pow2(1074));
        } else {
            assert(one.units() == pow2(1075));
        }
        assert(one.units() == n * pow2(1074));
        let np = (n * p) as nat;
        assert(one.units() * u == (np * w) * pow2(1074)) by (nonlinear_arith)
            requires
                one.units() == n * pow2(1074),
                u == p * w,
                np == n * p,
        ;
        assert(u > 0) by (nonlinear_arith)
            requires
                u == p * w,
                p > 0,
                w > 0,
        ;
        exact::lemma_round_scale(53, 0x7ff0_0000_0000_0000, np * w, 1, pow2(1074));
        assert(1 * pow2(1074) == pow2(1074));
        let (m, k) = identities::lemma_single_parts(c.period);
        let mm = (n * m) as nat;
        assert(n * p <= 2 * p && n * m <= 2 * m) by (nonlinear_arith)
            requires
                0 <= n <= 2,
                p >= 0,
                m >= 0,
        ;
        assert(np == mm * pow2(k)) by (nonlinear_arith)
            requires
                np == n * p,
                p == m * pow2(k),
                mm == n * m,
        ;
        lemma_double_keeps(mm, k);
        lemma_in_double(np);
    }
}

proof fn lemma_distance(x: F32, y: F32)
    requires
        !x.negative(),
        !y.negative(),
        x.magnitude() < 0x7f80_0000,
        y.magnitude() < 0x7f80_0000,
    ensures
        ({
            let d = x.units() - y.units();
            &&& (x - y).abs_value().rank() == single_bits((if d < 0 { -d } else { d }) as nat)
            &&& !(x - y).abs_value().nan()
        }),
{
    float32::lemma_negated(y);
    float32::lemma_sum(x, y.spec_neg());
    float32::lemma_abs(x - y);
}

proof fn lemma_tolerance(y: F32)
    requires
        0 < y.0 < 0x7f80_0000,
    ensures
        ({
            let part = F32(RELATIVE_TOLERANCE);
            &&& !(part * y).nan()
            &&& (part * y).rank() == rounding::round(24, 0x7f80_0000, part.units() * y.units(), pow2(149))
            &&& part.units() >= pow2(129)
            &&& y.units() > 0
            &&& y.abs_value() == y
        }),
{
    reveal(F32::spec_mul);
    reveal(F32::abs_value);
    let b: nat = 107 * 0x80_0000;
    lemma2_to64();
    assert(b / 0x80_0000 == 107 && b % 0x80_0000 == 0);
    lemma_pow2_adds(23, 106);
    magnitude::lemma_units_grow(24, b, RELATIVE_TOLERANCE as nat);
    magnitude::lemma_units_grow(24, 0, y.magnitude());
}

/// A number at most one part in `2^22` below another is not fuzzily below it.
proof fn lemma_near(x: F32, y: F32)
    requires
        !x.negative(),
        !y.negative(),
        x.magnitude() < 0x7f80_0000,
        y.magnitude() < 0x7f80_0000,
        x.units() < y.units() ==> (y.units() - x.units()) * 0x40_0000 <= y.units(),
    ensures
        !fuzzy::below(x, y),
{
    float32::lemma_order_is_numeric(x, y);
    if x.is_lt(y) {
        let part = F32(RELATIVE_TOLERANCE);
        let (m, n) = (x.units(), y.units());
        let d = (n - m) as nat;
        let one = pow2(149);
        lemma_pow2_pos(23);
        float32::lemma_order_is_numeric(x, F32(0));
        float32::lemma_order_is_numeric(y, F32(0));
        lemma_tolerance(x);
        lemma_tolerance(y);
        lemma_distance(x, y);
        // Twice the distance is within the tolerance, and rounds to more than the distance.
        exact::lemma_round_of_units(24, 0x7f80_0000, y.magnitude());
        lemma_in_single_grows(2 * d, n);
        lemma_in_single_grows(d, 2 * d);
        exact::lemma_round_error(24, 0x7f80_0000, d, 1);
        exact::lemma_round_error(24, 0x7f80_0000, 2 * d, 1);
        lemma2_to64();
        assert(single_bits(d) < single_bits(2 * d));
        lemma_pow2_adds(129, 20);
        lemma_pow2_pos(149);
        let (w, u) = (pow2(129), part.units());
        assert((2 * d) * one <= u * n) by (nonlinear_arith)
            requires
                one == w * 0x10_0000,
                u >= w,
                d * 0x40_0000 <= n,
        ;
        exact::lemma_round_scale(24, 0x7f80_0000, 2 * d, 1, one);
        assert(1 * one == one);
        exact::lemma_round_grows(24, 0x7f80_0000, (2 * d) * one, u * n, one);
        reveal(F32::is_lt);
        assert(x.abs_value().larger(y.abs_value()) == y);
        assert(fuzzy::close(x, y));
    }
}

/// A number fuzzily above another lies more than nearly one part in `2^20` above it.
proof fn lemma_gap(x: F32, y: F32)
    requires
        !x.negative(),
        !y.negative(),
        x.magnitude() < 0x7f80_0000,
        y.magnitude() < 0x7f80_0000,
        fuzzy::above(x, y),
        x.units() >= 0x4_0000_0000_0000,
    ensures
        x.units() > y.units(),
        (x.units() - y.units()) * 0x10_0000 * 0x100_0001 >= x.units() * 0xff_ffff,
{
    float32::lemma_order_is_numeric(x, y);
    float32::lemma_order_is_numeric(x, F32(0));
    float32::lemma_order_is_numeric(y, F32(0));
    lemma_pow2_pos(23);
    let (m, n) = (x.units(), y.units());
    let d = (m - n) as nat;
    if n > 0 {
        let part = F32(RELATIVE_TOLERANCE);
        let one = pow2(149);
        lemma_tolerance(x);
        lemma_tolerance(y);
        lemma_distance(x, y);
        reveal(F32::is_lt);
        assert(x.abs_value().larger(y.abs_value()) == x);
        lemma_pow2_adds(129, 20);
        lemma2_to64();
        lemma_pow2_pos(129);
        lemma_pow2_pos(149);
        let (w, u) = (pow2(129), part.units());
        assert(m * w <= u * m) by (nonlinear_arith)
            requires
                u >= w,
        ;
        exact::lemma_round_scale(24, 0x7f80_0000, m, 0x10_0000, w);
        assert(0x10_0000 * w == one) by (nonlinear_arith)
            requires
                one == w * 0x10_0000,
        ;
        exact::lemma_round_grows(24, 0x7f80_0000, m * w, u * m, one);
        let least = rounding::round(24, 0x7f80_0000, m, 0x10_0000);
        assert(least <= single_bits(d));
        exact::lemma_round_of_units(24, 0x7f80_0000, x.magnitude());
        lemma_in_single_grows(d, m);
        exact::lemma_round_error(24, 0x7f80_0000, m, 0x10_0000);
        exact::lemma_round_error(24, 0x7f80_0000, d, 1);
        if least < single_bits(d) {
            magnitude::lemma_units_grow(24, least, single_bits(d));
        }
    }
}

/// Of two delays that rounding parts by little, neither is fuzzily below the other.
proof fn lemma_same_delay(d: nat, e: nat)
    requires
        8 * d <= 7 * pow2(276),
        8 * e <= 7 * pow2(276),
        pow2(277) == 2 * pow2(276),
        (d - e) * 0x1000_0000 <= d,
    ensures
        !fuzzy::below(F32(single_bits(in_double(e)) as u32), F32(single_bits(in_double(d)) as u32)),
{
    lemma_in_double(d);
    lemma_in_double(e);
    let (m, n) = (in_double(e), in_double(d));
    lemma_in_single(m);
    lemma_in_single(n);
    lemma_near(F32(single_bits(m) as u32), F32(single_bits(n) as u32));
}

/// An edge inside the clock's period.
pub open spec fn inside(c: ClockView, rf: int) -> bool {
    c.waveform[rf].0 <= c.period.0
}

/// The count of the start of cycle `n`.
spec fn start_count(c: ClockView, n: int) -> nat {
    if n == 0 {
        0
    } else if n == 1 {
        c.period.units()
    } else {
        2 * c.period.units()
    }
}

/// The count of an edge in cycle `n`, as computed.
spec fn edge_count(c: ClockView, rf: int, n: int) -> nat {
    in_double(start_count(c, n) + c.waveform[rf].units())
}

/// A rounded sum: off by at most one part in `2^53`, and exact where it is small.
spec fn near_sum(count: nat, sum: nat) -> bool {
    &&& (count - sum) * 0x20_0000_0000_0000 <= sum
    &&& (sum - count) * 0x20_0000_0000_0000 <= sum
    &&& sum < 0x20_0000_0000_0000 ==> count == sum
}

proof fn lemma_edge(c: ClockView, rf: int, n: int)
    requires
        in_range(c),
        inside(c, rf),
        0 <= n <= 2,
    ensures
        counts(c.edge_in_cycle(rf, n), edge_count(c, rf, n)),
        c.waveform[rf].units() <= c.period.units(),
        near_sum(edge_count(c, rf, n), start_count(c, n) + c.waveform[rf].units()),
        n == 0 ==> edge_count(c, rf, 0) == c.waveform[rf].units(),
{
    let p = c.period.units();
    lemma_period(c);
    lemma_cycle_start(c, n);
    let edge = c.waveform[rf];
    if edge.0 < c.period.0 {
        magnitude::lemma_units_grow(24, edge.magnitude(), c.period.magnitude());
    }
    lemma_widened(edge);
    let np = start_count(c, n);
    assert(0 * p == 0 && 1 * p == p);
    assert(n * p == np);
    lemma_plus(c.cycle_start(n), edge.widened(), np, edge.units());
    lemma_in_double(np + edge.units());
}

/// A pairing is taken where its target edge is fuzzily after its source edge, and its delay is
/// their distance.
proof fn lemma_pairing(c: ClockView, src_rf: int, tgt_rf: int, n: int)
    requires
        in_range(c),
        inside(c, src_rf),
        inside(c, tgt_rf),
        0 <= n < 6,
    ensures
        ({
            let (t, s) = (edge_count(c, tgt_rf, n / 2), edge_count(c, src_rf, n % 2));
            let (x, y) = (F32(single_bits(t) as u32), F32(single_bits(s) as u32));
            &&& 8 * t <= 7 * pow2(276) && 8 * s <= 7 * pow2(276)
            &&& c.edge_in_cycle(tgt_rf, n / 2).narrowed() == x
            &&& c.edge_in_cycle(src_rf, n % 2).narrowed() == y
            &&& x.units() == in_single(t) && y.units() == in_single(s)
            &&& x.0 < 0x7f80_0000 && y.0 < 0x7f80_0000
            &&& (c.pairing(src_rf, tgt_rf, n) is Some <==> fuzzy::above(x, y))
            &&& c.pairing(src_rf, tgt_rf, n) matches Some(q) ==> t > s && q.0.narrowed() == F32(
                single_bits(in_double((t - s) as nat)) as u32,
            )
        }),
{
    let (t, s) = (edge_count(c, tgt_rf, n / 2), edge_count(c, src_rf, n % 2));
    lemma_period(c);
    lemma_edge(c, tgt_rf, n / 2);
    lemma_edge(c, src_rf, n % 2);
    let (x, y) = (c.edge_in_cycle(tgt_rf, n / 2), c.edge_in_cycle(src_rf, n % 2));
    lemma_narrowed(x, t);
    lemma_narrowed(y, s);
    if fuzzy::above(x.narrowed(), y.narrowed()) {
        reveal(F32::is_lt);
        if t <= s {
            lemma_in_single_grows(t, s);
        }
        lemma_minus(x, y, t, s);
        lemma_in_double((t - s) as nat);
        lemma_narrowed(x - y, in_double((t - s) as nat));
    }
}

/// A pairing that starts at the first source cycle requires its target edge's own time.
proof fn lemma_required(c: ClockView, src_rf: int, tgt_rf: int, n: int)
    requires
        in_range(c),
        inside(c, src_rf),
        inside(c, tgt_rf),
        n == 0 || n == 2,
        c.pairing(src_rf, tgt_rf, n) is Some,
    ensures
        (c.pairing(src_rf, tgt_rf, n)->0).1.narrowed() == c.edge_in_cycle(tgt_rf, n / 2).narrowed(),
{
    let t = edge_count(c, tgt_rf, n / 2);
    lemma_pairing(c, src_rf, tgt_rf, n);
    lemma_period(c);
    lemma_edge(c, tgt_rf, n / 2);
    lemma_cycle_start(c, 0);
    let (x, y) = (c.edge_in_cycle(tgt_rf, n / 2), c.cycle_start(0));
    lemma_minus(x, y, t, 0);
    // What has been rounded once is not moved again.
    lemma_again(start_count(c, n / 2) + c.waveform[tgt_rf].units());
    lemma_narrowed(x, t);
    lemma_narrowed(x - y, t);
}

proof fn lemma_again(n: nat)
    requires
        n <= pow2(277),
        in_double(n) <= pow2(277),
    ensures
        in_double(in_double(n)) == in_double(n),
{
    lemma_in_double(n);
    let b = double_bits(n);
    exact::lemma_round_of_units(53, 0x7ff0_0000_0000_0000, b);
    lemma_pow2_pos(925);
    lemma_of_multiple(in_double(n), pow2(925));
}

/// Two edges whose single precision times lie apart by the tolerance are far apart against the
/// rounding of a period in double precision.
proof fn lemma_apart(p: nat, t: nat, s: nat, x: nat, y: nat)
    requires
        t * 4 >= p * 3,
        s <= t,
        (x - t) * 0x100_0000 <= t,
        (t - x) * 0x100_0000 <= t,
        (y - s) * 0x100_0000 <= s,
        (s - y) * 0x100_0000 <= s,
        (x - y) * 0x10_0000 * 0x100_0001 >= x * 0xff_ffff,
    ensures
        (t - s) * 0x40_0000 >= p,
{
    // In single precision they lie apart by nearly `t / 2^20`, of which rounding took `t / 2^23`.
    assert((x - y) * 0x20_0000 >= x * 2 - x / 0x40_0000 - 1);
    assert((t - s) * 0x100_0000 >= (x - y) * 0x100_0000 - 2 * t);
}

/// What rounding takes from a long delay is little of it.
proof fn lemma_little(p: nat, d: nat, e: nat)
    requires
        (d - e) * 0x4_0000_0000_0000 <= p,
        d * 0x40_0000 >= p || e * 0x40_0000 >= p,
    ensures
        (d - e) * 0x1000_0000 <= d,
{
}

/// Edges of one cycle are about as far apart as those of the next; one of a later cycle is not
/// nearer.
proof fn lemma_cycle_apart(p: nat, a: nat, b: nat, t: nat, s: nat, later: nat)
    requires
        a < b <= p,
        near_sum(t, p + b),
        near_sum(s, p + a),
        near_sum(later, 2 * p + b),
    ensures
        later - s >= b - a,
        s < t && (p >= 0x8_0000_0000_0000 ==> (t - s) * 0x40_0000 >= p) ==> ((b - a) - (t - s)) * 0x1000_0000 <= b - a,
{
    if s < t && p >= 0x8_0000_0000_0000 && (t - s) * 0x40_0000 >= p {
        lemma_little(p, (b - a) as nat, (t - s) as nat);
    }
}

/// A target edge fuzzily after the source edge in the first cycle is the one required.
#[verifier::rlimit(60)]
#[verifier::spinoff_prover]
proof fn lemma_first_cycle(c: ClockView, src_rf: int, tgt_rf: int, n: int)
    requires
        in_range(c),
        inside(c, src_rf),
        inside(c, tgt_rf),
        0 < n < 6,
        c.pairing(src_rf, tgt_rf, 0) is Some,
        c.pairing(src_rf, tgt_rf, n) is Some,
    ensures
        !fuzzy::below(
            (c.pairing(src_rf, tgt_rf, n)->0).0.narrowed(),
            (c.pairing(src_rf, tgt_rf, 0)->0).0.narrowed(),
        ),
{
    let (p, a, b) = (c.period.units(), c.waveform[src_rf].units(), c.waveform[tgt_rf].units());
    let (t, s) = (edge_count(c, tgt_rf, n / 2), edge_count(c, src_rf, n % 2));
    lemma_period(c);
    lemma_pairing(c, src_rf, tgt_rf, 0);
    lemma_pairing(c, src_rf, tgt_rf, n);
    lemma_edge(c, src_rf, 0);
    lemma_edge(c, tgt_rf, 0);
    lemma_edge(c, tgt_rf, n / 2);
    lemma_edge(c, src_rf, n % 2);
    lemma_widened(c.period);
    let (d, e) = ((b - a) as nat, (t - s) as nat);
    lemma_edge(c, tgt_rf, 1);
    lemma_edge(c, tgt_rf, 2);
    lemma_edge(c, src_rf, 1);
    lemma_cycle_apart(
        p,
        a,
        b,
        edge_count(c, tgt_rf, 1),
        edge_count(c, src_rf, 1),
        edge_count(c, tgt_rf, 2),
    );
    if n == 1 {
        lemma_in_double_grows(p, p + a);
    } else if n == 2 {
        lemma_in_double_grows(p, p + b);
    } else if n == 3 && p >= 0x8_0000_0000_0000 {
        let (x, y) = (F32(single_bits(t) as u32), F32(single_bits(s) as u32));
        lemma_in_single(t);
        lemma_in_single(s);
        lemma_gap(x, y);
        lemma_apart(p, t, s, in_single(t), in_single(s));
    }
    lemma_same_delay(d, e);
}

/// From the second cycle's target edge to the first source edge is about as far as from the third to
/// the second.
proof fn lemma_period_apart(p: nat, a: nat, b: nat, first: nat, t: nat, s: nat)
    requires
        a <= p,
        b <= p,
        near_sum(first, p + b),
        near_sum(t, 2 * p + b),
        near_sum(s, p + a),
        a < first,
        s < t,
        p >= 0x8_0000_0000_0000 ==> (first - a) * 0x40_0000 >= p,
    ensures
        ((first - a) - (t - s)) * 0x1000_0000 <= first - a,
{
    if p >= 0x8_0000_0000_0000 {
        lemma_little(p, (first - a) as nat, (t - s) as nat);
    }
}

/// A target edge not after the source edge in the same cycle is not after it in a later one.
proof fn lemma_not_after(c: ClockView, src_rf: int, tgt_rf: int, n: int)
    requires
        in_range(c),
        inside(c, src_rf),
        inside(c, tgt_rf),
        n == 0 || n == 1 || n == 3,
        c.waveform[tgt_rf].0 <= c.waveform[src_rf].0,
    ensures
        c.pairing(src_rf, tgt_rf, n) is None,
{
    let (p, a, b) = (c.period.units(), c.waveform[src_rf].units(), c.waveform[tgt_rf].units());
    lemma_period(c);
    lemma_pairing(c, src_rf, tgt_rf, n);
    lemma_edge(c, src_rf, n % 2);
    lemma_edge(c, tgt_rf, n / 2);
    lemma_widened(c.period);
    if c.waveform[tgt_rf].0 < c.waveform[src_rf].0 {
        magnitude::lemma_units_grow(24, c.waveform[tgt_rf].magnitude(), c.waveform[src_rf].magnitude());
    }
    if n == 0 {
        lemma_in_double_grows(b, a);
    } else if n == 1 {
        lemma_in_double_grows(b, p + a);
    } else {
        lemma_in_double_grows(p + b, p + a);
    }
}

/// The target edge of the second cycle is no later after the source edge than one of the third.
proof fn lemma_third_cycle(c: ClockView, src_rf: int, tgt_rf: int, n: int)
    requires
        in_range(c),
        inside(c, src_rf),
        inside(c, tgt_rf),
        n == 4 || n == 5,
        c.pairing(src_rf, tgt_rf, 2) is Some,
        c.pairing(src_rf, tgt_rf, n) is Some,
    ensures
        !fuzzy::below(
            (c.pairing(src_rf, tgt_rf, n)->0).0.narrowed(),
            (c.pairing(src_rf, tgt_rf, 2)->0).0.narrowed(),
        ),
{
    let (p, a, b) = (c.period.units(), c.waveform[src_rf].units(), c.waveform[tgt_rf].units());
    let (t, s) = (edge_count(c, tgt_rf, 2), edge_count(c, src_rf, n % 2));
    let first = edge_count(c, tgt_rf, 1);
    lemma_period(c);
    lemma_pairing(c, src_rf, tgt_rf, 2);
    lemma_pairing(c, src_rf, tgt_rf, n);
    lemma_edge(c, src_rf, 0);
    lemma_edge(c, tgt_rf, 1);
    lemma_edge(c, tgt_rf, 2);
    lemma_edge(c, src_rf, n % 2);
    let (d, e) = ((first - a) as nat, (t - s) as nat);
    if n == 5 {
        if p >= 0x8_0000_0000_0000 {
            lemma_far(c, src_rf, tgt_rf);
        }
        lemma_period_apart(p, a, b, first, t, s);
    }
    lemma_same_delay(d, e);
}

/// The target edge of the second cycle, fuzzily after the source edge, is far from it.
proof fn lemma_far(c: ClockView, src_rf: int, tgt_rf: int)
    requires
        in_range(c),
        inside(c, src_rf),
        inside(c, tgt_rf),
        c.pairing(src_rf, tgt_rf, 2) is Some,
        c.period.units() >= 0x8_0000_0000_0000,
    ensures
        (edge_count(c, tgt_rf, 1) - c.waveform[src_rf].units()) * 0x40_0000 >= c.period.units(),
{
    let (p, a) = (c.period.units(), c.waveform[src_rf].units());
    let first = edge_count(c, tgt_rf, 1);
    lemma_period(c);
    lemma_pairing(c, src_rf, tgt_rf, 2);
    lemma_edge(c, src_rf, 0);
    lemma_edge(c, tgt_rf, 1);
    lemma_in_single(first);
    lemma_in_single(a);
    lemma_gap(F32(single_bits(first) as u32), F32(single_bits(a) as u32));
    lemma_apart(p, first, a, in_single(first), in_single(a));
}

/// For edges inside one period the setup required time is the target edge of the first cycle where
/// that is fuzzily after the source edge; where it is not after it, the target edge of the second
/// cycle, provided that one is fuzzily after the source edge.
pub proof fn lemma_setup_required(c: ClockView, src_rf: int, tgt_rf: int)
    requires
        in_range(c),
        0 <= src_rf < 2,
        0 <= tgt_rf < 2,
        inside(c, src_rf),
        inside(c, tgt_rf),
    ensures
        fuzzy::above(c.waveform[tgt_rf], c.waveform[src_rf]) ==> c.setup_required(src_rf, tgt_rf)
            == c.waveform[tgt_rf],
        c.waveform[tgt_rf].is_le(c.waveform[src_rf]) && fuzzy::above(
            c.edge_in_cycle(tgt_rf, 1).narrowed(),
            c.waveform[src_rf],
        ) ==> c.setup_required(src_rf, tgt_rf) == c.edge_in_cycle(tgt_rf, 1).narrowed(),
{
    reveal(F32::is_le);
    reveal_with_fuel(ClockView::best_pairing, 7);
    let (src, tgt) = (c.waveform[src_rf], c.waveform[tgt_rf]);
    lemma_period(c);
    lemma_edge(c, src_rf, 0);
    lemma_edge(c, tgt_rf, 0);
    lemma_widened(src);
    lemma_widened(tgt);
    lemma_pairing(c, src_rf, tgt_rf, 0);
    lemma_pairing(c, src_rf, tgt_rf, 2);
    if fuzzy::above(tgt, src) {
        assert forall|n: int|
            0 < n < 6 && (#[trigger] c.pairing(src_rf, tgt_rf, n)) is Some implies !fuzzy::below(
            (c.pairing(src_rf, tgt_rf, n)->0).0.narrowed(),
            (c.pairing(src_rf, tgt_rf, 0)->0).0.narrowed(),
        ) by {
            lemma_first_cycle(c, src_rf, tgt_rf, n);
        }
        lemma_required(c, src_rf, tgt_rf, 0);
    }
    if tgt.is_le(src) && fuzzy::above(c.edge_in_cycle(tgt_rf, 1).narrowed(), src) {
        assert forall|n: int|
            0 <= n < 6 && n != 2 && (#[trigger] c.pairing(src_rf, tgt_rf, n)) is Some implies n > 3 && !fuzzy::below(
            (c.pairing(src_rf, tgt_rf, n)->0).0.narrowed(),
            (c.pairing(src_rf, tgt_rf, 2)->0).0.narrowed(),
        ) by {
            if n == 0 || n == 1 || n == 3 {
                lemma_not_after(c, src_rf, tgt_rf, n);
            } else {
                lemma_third_cycle(c, src_rf, tgt_rf, n);
            }
        }
        lemma_required(c, src_rf, tgt_rf, 2);
    }
}

} // verus!
