//! Double precision arithmetic on whole numbers of few bits is exact.

use vstd::prelude::*;
use vstd::arithmetic::power2::{lemma2_to64, lemma2_to64_rest, lemma_pow2_adds, lemma_pow2_pos, pow2};
use crate::exact;
use crate::float32::F32;
use crate::float64::F64;
use crate::identities;
use crate::magnitude;
use crate::rounding;

verus! {

/// The number is the whole number `n`.
pub open spec fn whole(x: F64, n: int) -> bool {
    identities::finite(x) && x.value() == n * pow2(1074)
}

/// A whole number of at most 53 bits.
pub open spec fn few_bits(n: int) -> bool {
    -0x20_0000_0000_0000 < n < 0x20_0000_0000_0000
}

/// A zero is the whole number 0.
pub proof fn lemma_zero_is_whole(x: F64)
    requires
        x.zero(),
    ensures
        whole(x, 0),
{
    identities::lemma_units_positive(x);
    assert(0 * pow2(1074) == 0);
}

/// A number is one whole number only.
pub proof fn lemma_one_whole(x: F64, m: int, n: int)
    requires
        whole(x, m),
        whole(x, n),
    ensures
        m == n,
{
    let d = pow2(1074);
    lemma_pow2_pos(1074);
    assert(m == n) by (nonlinear_arith)
        requires
            m * d == n * d,
            d > 0,
    ;
}

/// A whole number that is not negative is not less than zero.
pub proof fn lemma_not_negative(x: F64, n: int)
    requires
        whole(x, n),
        0 <= n,
    ensures
        !x.is_lt(F64(0)),
{
    reveal(F64::is_lt);
    let d = pow2(1074);
    lemma_pow2_pos(1074);
    identities::lemma_units_positive(x);
    assert(n * d >= 0) by (nonlinear_arith)
        requires
            n >= 0,
            d > 0,
    ;
}

/// A whole number but 0 has a value.
pub proof fn lemma_has_a_value(x: F64, n: int)
    requires
        whole(x, n),
        n != 0,
    ensures
        x.value() != 0,
{
    let d = pow2(1074);
    lemma_pow2_pos(1074);
    assert(n * d != 0) by (nonlinear_arith)
        requires
            n != 0,
            d > 0,
    ;
}

/// One is the whole number 1.
pub proof fn lemma_one_is_whole()
    ensures
        whole(F64(0x3ff0_0000_0000_0000), 1),
{
    lemma2_to64();
    lemma2_to64_rest();
    assert(pow2(52) == 0x10_0000_0000_0000);
    assert(0x3ff0_0000_0000_0000nat / 0x10_0000_0000_0000 == 1023);
    assert(0x3ff0_0000_0000_0000nat % 0x10_0000_0000_0000 == 0);
    lemma_pow2_adds(52, 1022);
    assert(1 * pow2(1074) == pow2(1074));
}

/// A greater whole number is not at most a lesser one.
pub proof fn lemma_above(x: F64, m: int, y: F64, n: int)
    requires
        whole(x, m),
        whole(y, n),
        n < m,
    ensures
        !x.is_le(y),
{
    reveal(F64::is_le);
    reveal(F64::is_lt);
    reveal(F64::is_eq);
    let d = pow2(1074);
    lemma_pow2_pos(1074);
    assert(n * d < m * d) by (nonlinear_arith)
        requires
            n < m,
            d > 0,
    ;
    crate::float64::lemma_order_is_numeric(x, y);
    crate::float64::lemma_order_is_numeric(y, x);
}

/// Two is the whole number 2.
pub proof fn lemma_two_is_whole()
    ensures
        whole(F64(0x4000_0000_0000_0000), 2),
{
    lemma2_to64();
    lemma2_to64_rest();
    assert(pow2(52) == 0x10_0000_0000_0000);
    assert(0x4000_0000_0000_0000nat / 0x10_0000_0000_0000 == 1024);
    assert(0x4000_0000_0000_0000nat % 0x10_0000_0000_0000 == 0);
    lemma_pow2_adds(52, 1023);
    lemma_pow2_adds(1074, 1);
}

/// A whole number of few bits rounds to itself.
proof fn lemma_rounded(negative: bool, k: nat)
    requires
        0 < k < 0x20_0000_0000_0000,
    ensures
        whole(
            F64::rounded(negative, k * pow2(1074), 1),
            if negative {
                -(k as int)
            } else {
                k as int
            },
        ),
{
    let d = pow2(1074);
    let n = k * d;
    lemma2_to64();
    lemma2_to64_rest();
    lemma_pow2_pos(1074);
    lemma_pow2_adds(53, 1074);
    lemma_pow2_adds(1127, 76);
    lemma_pow2_pos(76);
    lemma_pow2_pos(1127);
    assert(pow2(53) == 0x20_0000_0000_0000);
    assert(n <= pow2(53) * d) by (nonlinear_arith)
        requires
            n == k * d,
            k <= pow2(53),
            d > 0,
    ;
    assert(pow2(1127) <= pow2(1203)) by (nonlinear_arith)
        requires
            pow2(1203) == pow2(1127) * pow2(76),
            pow2(76) >= 1,
            pow2(1127) > 0,
    ;
    identities::lemma_in_range(n);
    exact::lemma_round_keeps(53, 0x7ff0_0000_0000_0000, k, 1074);
    let b = rounding::round(53, 0x7ff0_0000_0000_0000, n, 1);
    let x = F64::rounded(negative, n, 1);
    assert(x.magnitude() == b);
    assert(x.negative() == negative);
    assert(-(n as int) == (-(k as int)) * d) by (nonlinear_arith)
        requires
            n == k * d,
    ;
}

/// The sum of whole numbers is exact where it has few bits.
pub proof fn lemma_sum(a: F64, m: int, b: F64, n: int)
    requires
        whole(a, m),
        whole(b, n),
        few_bits(m + n),
    ensures
        whole(a + b, m + n),
{
    reveal(F64::spec_add);
    let d = pow2(1074);
    lemma_pow2_pos(1074);
    let s = m + n;
    assert(a.value() + b.value() == s * d) by (nonlinear_arith)
        requires
            a.value() == m * d,
            b.value() == n * d,
            s == m + n,
    ;
    if s > 0 {
        assert(s * d > 0) by (nonlinear_arith)
            requires
                s > 0,
                d > 0,
        ;
        lemma_rounded(false, s as nat);
    } else if s < 0 {
        let k = (-s) as nat;
        assert(s * d < 0 && -(s * d) == k * d) by (nonlinear_arith)
            requires
                s < 0,
                d > 0,
                k == -s,
        ;
        lemma_rounded(true, k);
    } else {
        assert(s * d == 0) by (nonlinear_arith)
            requires
                s == 0,
        ;
        lemma_zero_is_whole(a + b);
    }
}

/// The negation of a whole number is exact.
pub proof fn lemma_negated(a: F64, m: int)
    requires
        whole(a, m),
    ensures
        whole(a.spec_neg(), -m),
{
    reveal(F64::spec_neg);
    let d = pow2(1074);
    assert(-(m * d) == (-m) * d) by (nonlinear_arith);
    assert(a.spec_neg().magnitude() == a.magnitude());
    identities::lemma_units_positive(a);
}

/// The difference of whole numbers is exact where it has few bits.
pub proof fn lemma_difference(a: F64, m: int, b: F64, n: int)
    requires
        whole(a, m),
        whole(b, n),
        few_bits(m - n),
    ensures
        whole(a - b, m - n),
{
    lemma_negated(b, n);
    lemma_sum(a, m, b.spec_neg(), -n);
}

/// The product of whole numbers is exact where it has few bits.
pub proof fn lemma_product(a: F64, m: int, b: F64, n: int)
    requires
        whole(a, m),
        whole(b, n),
        few_bits(m * n),
    ensures
        whole(a * b, m * n),
{
    reveal(F64::spec_mul);
    let d = pow2(1074);
    lemma_pow2_pos(1074);
    identities::lemma_units_positive(a);
    identities::lemma_units_positive(b);
    let (p, q) = (if m < 0 { -m } else { m }, if n < 0 { -n } else { n });
    assert(a.units() == p * d) by (nonlinear_arith)
        requires
            a.value() == m * d,
            (a.value() == a.units() && a.units() >= 0) || (a.value() == -a.units() && a.units() >= 0),
            (m < 0 && p == -m) || (m >= 0 && p == m),
            d > 0,
    ;
    assert(b.units() == q * d) by (nonlinear_arith)
        requires
            b.value() == n * d,
            (b.value() == b.units() && b.units() >= 0) || (b.value() == -b.units() && b.units() >= 0),
            (n < 0 && q == -n) || (n >= 0 && q == n),
            d > 0,
    ;
    if a.zero() || b.zero() {
        assert(m == 0 || n == 0) by (nonlinear_arith)
            requires
                a.units() == p * d,
                b.units() == q * d,
                a.units() == 0 || b.units() == 0,
                d > 0,
                (m < 0 && p == -m) || (m >= 0 && p == m),
                (n < 0 && q == -n) || (n >= 0 && q == n),
        ;
        assert(m * n == 0) by (nonlinear_arith)
            requires
                m == 0 || n == 0,
        ;
        lemma_zero_is_whole(a * b);
    } else {
        assert(p > 0 && q > 0) by (nonlinear_arith)
            requires
                p * d > 0,
                q * d > 0,
                d > 0,
        ;
        let k = p * q;
        assert(0 < k && (k == m * n || k == -(m * n))) by (nonlinear_arith)
            requires
                k == p * q,
                p > 0,
                q > 0,
                (m < 0 && p == -m) || (m >= 0 && p == m),
                (n < 0 && q == -n) || (n >= 0 && q == n),
        ;
        assert(a.units() * b.units() == (k * d) * d) by (nonlinear_arith)
            requires
                a.units() == p * d,
                b.units() == q * d,
                k == p * q,
        ;
        exact::lemma_round_scale(53, 0x7ff0_0000_0000_0000, (k * d) as nat, 1, d);
        assert(1 * d == d);
        assert(a.negative() <==> m < 0) by (nonlinear_arith)
            requires
                a.value() == m * d,
                (a.negative() && a.value() < 0) || (!a.negative() && a.value() > 0),
                d > 0,
        ;
        assert(b.negative() <==> n < 0) by (nonlinear_arith)
            requires
                b.value() == n * d,
                (b.negative() && b.value() < 0) || (!b.negative() && b.value() > 0),
                d > 0,
        ;
        let sign = a.negative() != b.negative();
        assert(m * n == if sign { -k } else { k }) by (nonlinear_arith)
            requires
                k == p * q,
                sign == ((m < 0) != (n < 0)),
                (m < 0 && p == -m) || (m >= 0 && p == m),
                (n < 0 && q == -n) || (n >= 0 && q == n),
        ;
        lemma_rounded(sign, k as nat);
    }
}

/// The quotient of whole numbers is exact where it is a whole number of few bits.
pub proof fn lemma_quotient(a: F64, b: F64, n: int, q: int)
    requires
        whole(a, q * n),
        whole(b, n),
        n != 0,
        few_bits(q),
    ensures
        whole(a / b, q),
{
    reveal(F64::spec_euclidean_or_real_div);
    let d = pow2(1074);
    lemma_pow2_pos(1074);
    identities::lemma_units_positive(a);
    identities::lemma_units_positive(b);
    let m = q * n;
    let (p, r) = (if q < 0 { -q } else { q }, if n < 0 { -n } else { n });
    assert(m == p * r || m == -(p * r)) by (nonlinear_arith)
        requires
            m == q * n,
            (q < 0 && p == -q) || (q >= 0 && p == q),
            (n < 0 && r == -n) || (n >= 0 && r == n),
    ;
    assert(p * r >= 0) by (nonlinear_arith)
        requires
            p >= 0,
            r >= 0,
    ;
    let k = p * r;
    assert(a.units() == k * d) by (nonlinear_arith)
        requires
            a.value() == m * d,
            (a.value() == a.units() && a.units() >= 0) || (a.value() == -a.units() && a.units() >= 0),
            m == k || m == -k,
            k >= 0,
            d > 0,
    ;
    assert(b.units() == r * d) by (nonlinear_arith)
        requires
            b.value() == n * d,
            (b.value() == b.units() && b.units() >= 0) || (b.value() == -b.units() && b.units() >= 0),
            n == r || n == -r,
            r >= 0,
            d > 0,
    ;
    assert(r * d > 0) by (nonlinear_arith)
        requires
            r > 0,
            d > 0,
    ;
    if q == 0 {
        assert(k * d == 0) by (nonlinear_arith)
            requires
                k == p * r,
                p == 0,
        ;
        assert(a.zero());
        lemma_zero_is_whole(a / b);
    } else {
        assert(k * d > 0) by (nonlinear_arith)
            requires
                k == p * r,
                p > 0,
                r > 0,
                d > 0,
        ;
        exact::lemma_round_scale(53, 0x7ff0_0000_0000_0000, (p * d) as nat, 1, (r * d) as nat);
        assert(a.units() * d == (p * d) * (r * d)) by (nonlinear_arith)
            requires
                a.units() == k * d,
                k == p * r,
        ;
        assert(1 * (r * d) == r * d);
        assert(a.negative() <==> m < 0) by (nonlinear_arith)
            requires
                a.value() == m * d,
                (a.negative() && a.value() < 0) || (!a.negative() && a.value() > 0),
                d > 0,
        ;
        assert(b.negative() <==> n < 0) by (nonlinear_arith)
            requires
                b.value() == n * d,
                (b.negative() && b.value() < 0) || (!b.negative() && b.value() > 0),
                d > 0,
        ;
        let sign = a.negative() != b.negative();
        assert(sign <==> q < 0) by (nonlinear_arith)
            requires
                m == q * n,
                n != 0,
                q != 0,
                sign == ((m < 0) != (n < 0)),
        ;
        lemma_rounded(sign, p as nat);
    }
}

/// The single precision number is the whole number `n`.
pub open spec fn single_whole(x: F32, n: int) -> bool {
    identities::single_finite(x) && x.value() == n * pow2(149)
}

/// A whole number of 24 bits keeps its value when it is narrowed.
pub proof fn lemma_narrowed(a: F64, m: int)
    requires
        whole(a, m),
        -0x100_0000 < m < 0x100_0000,
    ensures
        single_whole(a.narrowed(), m),
{
    reveal(F64::narrowed);
    let (d, e, w) = (pow2(1074), pow2(149), pow2(925));
    lemma_pow2_pos(1074);
    lemma_pow2_pos(149);
    lemma_pow2_pos(925);
    lemma_pow2_adds(149, 925);
    lemma2_to64();
    identities::lemma_units_positive(a);
    let k = (if m < 0 { -m } else { m }) as nat;
    assert(a.units() == k * d) by (nonlinear_arith)
        requires
            a.value() == m * d,
            (a.value() == a.units() && a.units() >= 0) || (a.value() == -a.units() && a.units() >= 0),
            m == k || m == -k,
            d > 0,
    ;
    if m == 0 {
        assert(k * d == 0 && m * e == 0) by (nonlinear_arith)
            requires
                k == 0,
                m == 0,
        ;
        assert(a.zero());
        assert(a.narrowed().magnitude() == 0);
        lemma_pow2_pos(23);
        assert(magnitude::units(24, 0) == 0);
    } else {
        let n = k * e;
        assert(n > 0 && k * d > 0) by (nonlinear_arith)
            requires
                n == k * e,
                k > 0,
                e > 0,
                d > 0,
        ;
        assert(a.units() == n * w) by (nonlinear_arith)
            requires
                a.units() == k * d,
                d == e * w,
                n == k * e,
        ;
        let b: nat = 151 * 0x80_0000;
        assert(pow2(23) == 0x80_0000);
        assert(b / 0x80_0000 == 151 && b % 0x80_0000 == 0);
        lemma_pow2_adds(23, 150);
        assert(magnitude::units(24, b) == pow2(173));
        lemma_pow2_adds(24, 149);
        assert(n <= pow2(173)) by (nonlinear_arith)
            requires
                n == k * e,
                k <= pow2(24),
                pow2(173) == pow2(24) * e,
                e > 0,
        ;
        exact::lemma_round_beside(24, 0x7f80_0000, n, 1, b);
        exact::lemma_round_keeps(24, 0x7f80_0000, k, 149);
        exact::lemma_round_scale(24, 0x7f80_0000, n, 1, w);
        assert(1 * w == w);
        let x = a.narrowed();
        assert(x.magnitude() == rounding::round(24, 0x7f80_0000, n, 1));
        assert(x.negative() == a.negative());
        assert(a.negative() <==> m < 0) by (nonlinear_arith)
            requires
                a.value() == m * d,
                (a.negative() && a.value() < 0) || (!a.negative() && a.value() > 0),
                d > 0,
        ;
        assert(-(n as int) == (-(k as int)) * e) by (nonlinear_arith)
            requires
                n == k * e,
        ;
    }
}

/// A single precision whole number keeps its value when it is widened.
pub proof fn lemma_widened(x: F32, m: int)
    requires
        single_whole(x, m),
    ensures
        whole(x.widened(), m),
{
    identities::lemma_widened_is_exact(x);
    let (e, w) = (pow2(149), pow2(925));
    lemma_pow2_adds(149, 925);
    let y = x.widened();
    assert(y.value() == x.value() * w) by (nonlinear_arith)
        requires
            (y.value() == y.units() && x.value() == x.units()) || (y.value() == -y.units() && x.value()
                == -x.units()),
            y.units() == x.units() * w,
    ;
    assert(x.value() * w == m * (e * w)) by (nonlinear_arith)
        requires
            x.value() == m * e,
    ;
}

/// A whole number of 24 bits rounds to itself in single precision.
proof fn lemma_single_rounded(negative: bool, k: nat)
    requires
        0 < k < 0x100_0000,
    ensures
        single_whole(
            F32::rounded(negative, k * pow2(149), 1),
            if negative {
                -(k as int)
            } else {
                k as int
            },
        ),
{
    let e = pow2(149);
    let n = k * e;
    lemma_pow2_pos(149);
    lemma2_to64();
    let b: nat = 151 * 0x80_0000;
    assert(pow2(23) == 0x80_0000);
    assert(b / 0x80_0000 == 151 && b % 0x80_0000 == 0);
    lemma_pow2_adds(23, 150);
    assert(magnitude::units(24, b) == pow2(173));
    lemma_pow2_adds(24, 149);
    assert(n <= pow2(173)) by (nonlinear_arith)
        requires
            n == k * e,
            k <= pow2(24),
            pow2(173) == pow2(24) * e,
            e > 0,
    ;
    exact::lemma_round_beside(24, 0x7f80_0000, n, 1, b);
    exact::lemma_round_keeps(24, 0x7f80_0000, k, 149);
    let x = F32::rounded(negative, n, 1);
    assert(x.magnitude() == rounding::round(24, 0x7f80_0000, n, 1));
    assert(x.negative() == negative);
    assert(-(n as int) == (-(k as int)) * e) by (nonlinear_arith)
        requires
            n == k * e,
    ;
}

/// A single precision zero is the whole number 0.
pub proof fn lemma_single_zero(x: F32)
    requires
        x.zero(),
    ensures
        single_whole(x, 0),
{
    lemma_pow2_pos(23);
    assert(magnitude::units(24, 0) == 0);
    assert(0 * pow2(149) == 0);
}

/// The single precision sum of whole numbers is exact where it has 24 bits.
pub proof fn lemma_single_sum(a: F32, m: int, b: F32, n: int)
    requires
        single_whole(a, m),
        single_whole(b, n),
        -0x100_0000 < m + n < 0x100_0000,
    ensures
        single_whole(a + b, m + n),
{
    reveal(F32::spec_add);
    let e = pow2(149);
    lemma_pow2_pos(149);
    let s = m + n;
    assert(a.value() + b.value() == s * e) by (nonlinear_arith)
        requires
            a.value() == m * e,
            b.value() == n * e,
            s == m + n,
    ;
    if s > 0 {
        assert(s * e > 0) by (nonlinear_arith)
            requires
                s > 0,
                e > 0,
        ;
        lemma_single_rounded(false, s as nat);
    } else if s < 0 {
        let k = (-s) as nat;
        assert(s * e < 0 && -(s * e) == k * e) by (nonlinear_arith)
            requires
                s < 0,
                e > 0,
                k == -s,
        ;
        lemma_single_rounded(true, k);
    } else {
        assert(s * e == 0) by (nonlinear_arith)
            requires
                s == 0,
        ;
        lemma_single_zero(a + b);
    }
}

/// The single precision difference of whole numbers is exact where it has 24 bits.
pub proof fn lemma_single_difference(a: F32, m: int, b: F32, n: int)
    requires
        single_whole(a, m),
        single_whole(b, n),
        -0x100_0000 < m - n < 0x100_0000,
    ensures
        single_whole(a - b, m - n),
{
    reveal(F32::spec_neg);
    let e = pow2(149);
    let c = b.spec_neg();
    assert(-(n * e) == (-n) * e) by (nonlinear_arith);
    assert(c.magnitude() == b.magnitude());
    lemma_pow2_pos(23);
    assert(magnitude::units(24, 0) == 0);
    assert(c.value() == -b.value());
    lemma_single_sum(a, m, c, -n);
}

/// The number is `n` times a power of two, in the units that a double precision number counts in.
pub open spec fn multiple(x: F64, n: int, j: nat) -> bool {
    identities::finite(x) && x.value() == n * pow2(j)
}

/// A zero is no times anything.
pub proof fn lemma_multiple_zero(x: F64, j: nat)
    requires
        x.zero(),
    ensures
        multiple(x, 0, j),
{
    identities::lemma_units_positive(x);
    assert(0 * pow2(j) == 0);
}

/// What is no times anything is a zero.
pub proof fn lemma_multiple_nothing(x: F64, j: nat)
    requires
        multiple(x, 0, j),
    ensures
        x.zero(),
{
    identities::lemma_units_positive(x);
    assert(0 * pow2(j) == 0);
}

/// The negation of a multiple.
pub proof fn lemma_multiple_negated(a: F64, m: int, j: nat)
    requires
        multiple(a, m, j),
    ensures
        multiple(a.spec_neg(), -m, j),
{
    reveal(F64::spec_neg);
    let d = pow2(j);
    assert(-(m * d) == (-m) * d) by (nonlinear_arith);
    assert(a.spec_neg().magnitude() == a.magnitude());
    identities::lemma_units_positive(a);
}

proof fn lemma_multiple_rounded(negative: bool, k: nat, j: nat)
    requires
        0 < k < 0x20_0000_0000_0000,
        j <= 1150,
    ensures
        multiple(
            F64::rounded(negative, k * pow2(j), 1),
            if negative {
                -(k as int)
            } else {
                k as int
            },
            j,
        ),
{
    let d = pow2(j);
    let n = k * d;
    lemma2_to64();
    lemma2_to64_rest();
    lemma_pow2_pos(j);
    lemma_pow2_adds(53, j);
    let rest = (1203 - 53 - j) as nat;
    lemma_pow2_adds(53 + j, rest);
    lemma_pow2_pos(rest);
    lemma_pow2_pos(53 + j);
    assert(pow2(53) == 0x20_0000_0000_0000);
    assert(n <= pow2(53) * d) by (nonlinear_arith)
        requires
            n == k * d,
            k <= pow2(53),
            d > 0,
    ;
    assert(pow2(53 + j) <= pow2(1203)) by (nonlinear_arith)
        requires
            pow2(1203) == pow2(53 + j) * pow2(rest),
            pow2(rest) >= 1,
            pow2(53 + j) > 0,
    ;
    identities::lemma_in_range(n);
    exact::lemma_round_keeps(53, 0x7ff0_0000_0000_0000, k, j);
    let x = F64::rounded(negative, n, 1);
    assert(x.magnitude() == rounding::round(53, 0x7ff0_0000_0000_0000, n, 1));
    assert(x.negative() == negative);
    assert(-(n as int) == (-(k as int)) * d) by (nonlinear_arith)
        requires
            n == k * d,
    ;
}

/// The sum of multiples of one power of two is exact where it has few bits.
pub proof fn lemma_multiple_sum(a: F64, m: int, b: F64, n: int, j: nat)
    requires
        multiple(a, m, j),
        multiple(b, n, j),
        few_bits(m + n),
        j <= 1150,
    ensures
        multiple(a + b, m + n, j),
{
    reveal(F64::spec_add);
    let d = pow2(j);
    lemma_pow2_pos(j);
    let s = m + n;
    assert(a.value() + b.value() == s * d) by (nonlinear_arith)
        requires
            a.value() == m * d,
            b.value() == n * d,
            s == m + n,
    ;
    if s > 0 {
        assert(s * d > 0) by (nonlinear_arith)
            requires
                s > 0,
                d > 0,
        ;
        lemma_multiple_rounded(false, s as nat, j);
    } else if s < 0 {
        let k = (-s) as nat;
        assert(s * d < 0 && -(s * d) == k * d) by (nonlinear_arith)
            requires
                s < 0,
                d > 0,
                k == -s,
        ;
        lemma_multiple_rounded(true, k, j);
    } else {
        assert(s * d == 0) by (nonlinear_arith)
            requires
                s == 0,
        ;
        lemma_multiple_zero(a + b, j);
    }
}

/// How many times a power of two a number is, its sign left out.
proof fn lemma_multiple_size(x: F64, n: int, j: nat)
    requires
        multiple(x, n, j),
    ensures
        x.units() == (if n < 0 { -n } else { n }) * pow2(j),
        pow2(j) > 0,
        x.zero() <==> n == 0,
        n != 0 ==> (x.negative() <==> n < 0),
{
    let d = pow2(j);
    lemma_pow2_pos(j);
    identities::lemma_units_positive(x);
    let p = if n < 0 { -n } else { n };
    assert(x.units() == p * d) by (nonlinear_arith)
        requires
            x.value() == n * d,
            (x.value() == x.units() && x.units() >= 0) || (x.value() == -x.units() && x.units() >= 0),
            (n < 0 && p == -n) || (n >= 0 && p == n),
            d > 0,
    ;
    assert(x.units() == 0 <==> n == 0) by (nonlinear_arith)
        requires
            x.units() == p * d,
            (n < 0 && p == -n) || (n >= 0 && p == n),
            d > 0,
    ;
    if n != 0 {
        assert(x.negative() <==> n < 0) by (nonlinear_arith)
            requires
                x.value() == n * d,
                (x.negative() && x.value() < 0) || (!x.negative() && x.value() > 0),
                d > 0,
        ;
    }
}

/// The product of multiples of powers of two is exact where it has few bits.
pub proof fn lemma_multiple_product(a: F64, m: int, i: nat, b: F64, n: int, j: nat)
    requires
        multiple(a, m, i),
        multiple(b, n, j),
        few_bits(m * n),
        1074 <= i + j <= 1074 + 1150,
    ensures
        multiple(a * b, m * n, (i + j - 1074) as nat),
{
    reveal(F64::spec_mul);
    let h = (i + j - 1074) as nat;
    let (d, e, f, g) = (pow2(i), pow2(j), pow2(h), pow2(1074));
    lemma_pow2_pos(1074);
    lemma_pow2_pos(h);
    lemma_pow2_adds(i, j);
    lemma_pow2_adds(h, 1074);
    lemma_multiple_size(a, m, i);
    lemma_multiple_size(b, n, j);
    let (p, q) = (if m < 0 { -m } else { m }, if n < 0 { -n } else { n });
    if m == 0 || n == 0 {
        assert(m * n == 0) by (nonlinear_arith)
            requires
                m == 0 || n == 0,
        ;
        lemma_multiple_zero(a * b, h);
    } else {
        let k = p * q;
        let sign = a.negative() != b.negative();
        assert(0 < k && m * n == if sign { -k } else { k }) by (nonlinear_arith)
            requires
                k == p * q,
                p > 0,
                q > 0,
                sign == ((m < 0) != (n < 0)),
                (m < 0 && p == -m) || (m >= 0 && p == m),
                (n < 0 && q == -n) || (n >= 0 && q == n),
        ;
        assert(a.units() * b.units() == (k * f) * g && k * f > 0) by (nonlinear_arith)
            requires
                a.units() == p * d,
                b.units() == q * e,
                k == p * q,
                k > 0,
                f > 0,
                d * e == f * g,
        ;
        exact::lemma_round_scale(53, 0x7ff0_0000_0000_0000, (k * f) as nat, 1, g);
        assert(1 * g == g);
        lemma_multiple_rounded(sign, k as nat, h);
    }
}

/// The quotient of multiples of powers of two is exact where it is a multiple of few bits.
pub proof fn lemma_multiple_quotient(a: F64, i: nat, b: F64, n: int, j: nat, q: int)
    requires
        multiple(a, q * n, i),
        multiple(b, n, j),
        n != 0,
        few_bits(q),
        j <= i + 1074 <= j + 1150,
    ensures
        multiple(a / b, q, (i + 1074 - j) as nat),
{
    reveal(F64::spec_euclidean_or_real_div);
    let h = (i + 1074 - j) as nat;
    let (d, e, f, g) = (pow2(i), pow2(j), pow2(h), pow2(1074));
    lemma_pow2_pos(1074);
    lemma_pow2_pos(h);
    lemma_pow2_adds(i, 1074);
    lemma_pow2_adds(h, j);
    let m = q * n;
    lemma_multiple_size(a, m, i);
    lemma_multiple_size(b, n, j);
    let (p, r, k) = (if q < 0 { -q } else { q }, if n < 0 { -n } else { n }, if m < 0 { -m } else { m });
    assert(k == p * r) by (nonlinear_arith)
        requires
            m == q * n,
            (q < 0 && p == -q) || (q >= 0 && p == q),
            (n < 0 && r == -n) || (n >= 0 && r == n),
            (m < 0 && k == -m) || (m >= 0 && k == m),
    ;
    if q == 0 {
        assert(m == 0) by (nonlinear_arith)
            requires
                m == q * n,
                q == 0,
        ;
        lemma_multiple_zero(a / b, h);
    } else {
        let sign = a.negative() != b.negative();
        assert(m != 0 && (((m < 0) != (n < 0)) <==> q < 0)) by (nonlinear_arith)
            requires
                m == q * n,
                n != 0,
                q != 0,
        ;
        assert(a.units() * g == (p * f) * (r * e) && p * f > 0 && r * e > 0) by (nonlinear_arith)
            requires
                a.units() == k * d,
                k == p * r,
                p > 0,
                r > 0,
                f > 0,
                e > 0,
                d * g == f * e,
        ;
        exact::lemma_round_scale(53, 0x7ff0_0000_0000_0000, (p * f) as nat, 1, (r * e) as nat);
        assert(1 * (r * e) == r * e);
        lemma_multiple_rounded(sign, p as nat, h);
    }
}

/// A multiple of a power of two, counted in a smaller one.
pub proof fn lemma_multiple_shifted(x: F64, n: int, j: nat, w: nat)
    requires
        multiple(x, n * pow2(w), j),
    ensures
        multiple(x, n, j + w),
{
    lemma_pow2_adds(j, w);
    assert((n * pow2(w)) * pow2(j) == n * (pow2(j) * pow2(w))) by (nonlinear_arith);
}

} // verus!
