//! Arithmetic on finite magnitudes of a binary format, each operation rounded once.
//!
//! A magnitude is a bit pattern without its sign; `p` is the format's precision and `k` the
//! exponent of its unit, `2^-k`. The two formats are single (`p = 24`, `k = 149`) and double
//! (`p = 53`, `k = 1074`).

use vstd::prelude::*;
use vstd::arithmetic::power2::pow2;
use crate::rounding;

verus! {

/// The patterns of infinity of the two formats, by their precision.
pub open spec fn is_format(p: u32, inf: u64) -> bool {
    (p == 24 && inf == 0x7f80_0000) || (p == 53 && inf == 0x7ff0_0000_0000_0000)
}

/// The magnitude a finite pattern stands for, in units.
pub open spec fn units(p: nat, b: nat) -> nat {
    let h = pow2((p - 1) as nat);
    if b < h {
        b
    } else {
        (h + b % h) * pow2((b / h - 1) as nat)
    }
}

pub(crate) proof fn lemma_units_grow(p: nat, a: nat, b: nat)
    requires
        p >= 1,
        a < b,
    ensures
        units(p, a) < units(p, b),
{
    let h = pow2((p - 1) as nat);
    vstd::arithmetic::power2::lemma_pow2_pos((p - 1) as nat);
    vstd::arithmetic::div_mod::lemma_fundamental_div_mod(a as int, h as int);
    vstd::arithmetic::div_mod::lemma_fundamental_div_mod(b as int, h as int);
    let (ea, ra) = (a / h, a % h);
    let (eb, rb) = (b / h, b % h);
    if b >= h {
        assert(eb >= 1) by (nonlinear_arith)
            requires
                b == h * eb + rb,
                rb < h,
                b >= h,
        ;
        let pb = pow2((eb - 1) as nat);
        vstd::arithmetic::power2::lemma_pow2_pos((eb - 1) as nat);
        if a < h {
            assert((h + rb) * pb >= h) by (nonlinear_arith)
                requires
                    pb >= 1,
                    h >= 0,
                    rb >= 0,
            ;
        } else {
            let pa = pow2((ea - 1) as nat);
            assert(ea >= 1 && ea <= eb) by (nonlinear_arith)
                requires
                    a == h * ea + ra,
                    ra < h,
                    a >= h,
                    b == h * eb + rb,
                    rb < h,
                    a < b,
            ;
            if ea == eb {
                assert((h + ra) * pa < (h + rb) * pb) by (nonlinear_arith)
                    requires
                        pa == pb,
                        pb >= 1,
                        ra < rb,
                ;
            } else {
                vstd::arithmetic::power2::lemma_pow2_unfold(ea);
                if ea < eb - 1 {
                    vstd::arithmetic::power2::lemma_pow2_strictly_increases(ea, (eb - 1) as nat);
                }
                vstd::arithmetic::power2::lemma_pow2_pos((ea - 1) as nat);
                assert((h + ra) * pa < (h + rb) * pb) by (nonlinear_arith)
                    requires
                        2 * pa <= pb,
                        pa >= 1,
                        ra < h,
                        rb >= 0,
                        h >= 1,
                ;
            }
        }
    }
}

/// A finite pattern as `m * 2^e` units.
pub(crate) fn unpack(p: u32, inf: u64, b: u64) -> (r: (u64, i32))
    requires
        is_format(p, inf),
        b < inf,
    ensures
        0 <= r.1 <= 2045,
        r.0 < pow2(p as nat) <= 0x20_0000_0000_0000,
        units(p as nat, b as nat) == r.0 * pow2(r.1 as nat),
        r.1 > 0 ==> r.0 >= pow2((p - 1) as nat),
        b > 0 ==> r.0 > 0,
{
    let h: u64 = if p == 24 { 0x80_0000 } else { 0x10_0000_0000_0000 };
    proof {
        vstd::arithmetic::power2::lemma2_to64();
        vstd::arithmetic::power2::lemma2_to64_rest();
    }
    if b < h {
        proof {
            assert(b * pow2(0) == b) by (nonlinear_arith)
                requires
                    pow2(0) == 1,
            ;
        }
        (b, 0)
    } else {
        let q: u64 = b / h;
        let r: u64 = b % h;
        proof {
            vstd::arithmetic::div_mod::lemma_fundamental_div_mod(b as int, h as int);
            assert(1 <= q <= 2046) by (nonlinear_arith)
                requires
                    b == h * q + r,
                    r < h,
                    b >= h,
                    b < 2047 * h,
            ;
            assert(b as nat / h as nat == q && b as nat % h as nat == r);
            assert(units(p as nat, b as nat) == (h as nat + r as nat) * pow2((q - 1) as nat));
        }
        (h + r, q as i32 - 1)
    }
}

proof fn lemma_pow2_le(a: nat, b: nat)
    requires
        a <= b,
    ensures
        0 < pow2(a) <= pow2(b),
{
    vstd::arithmetic::power2::lemma_pow2_pos(a);
    if a < b {
        vstd::arithmetic::power2::lemma_pow2_strictly_increases(a, b);
    }
}

proof fn lemma_limits()
    ensures
        pow2(0) == 1,
        pow2(12) == 4096,
        pow2(53) == 0x20_0000_0000_0000,
        pow2(64) == 0x1_0000_0000_0000_0000,
        pow2(117) == 0x20_0000_0000_0000 * 0x1_0000_0000_0000_0000,
        pow2(127) == 0x8000_0000_0000_0000_0000_0000_0000_0000,
{
    vstd::arithmetic::power2::lemma2_to64();
    vstd::arithmetic::power2::lemma2_to64_rest();
    vstd::arithmetic::power2::lemma_pow2_adds(53, 64);
    vstd::arithmetic::power2::lemma_pow2_adds(63, 64);
    assert(0x1_0000_0000_0000_0000nat * 0x8000_0000_0000_0000nat
        == 0x8000_0000_0000_0000_0000_0000_0000_0000nat) by (nonlinear_arith);
}

/// `(m1 * 2^d + m2) * 2^e` or `(m1 * 2^d - m2) * 2^e` units, where the difference is positive.
fn combine(p: u32, inf: u64, m1: u64, e1: i32, m2: u64, e2: i32, minus: bool) -> (b: u64)
    requires
        is_format(p, inf),
        0 <= e2 <= e1 <= 2045,
        0 < m1 < 0x20_0000_0000_0000,
        m2 < 0x20_0000_0000_0000,
        e1 > 0 ==> m1 >= pow2((p - 1) as nat),
        minus ==> m1 * pow2(e1 as nat) > m2 * pow2(e2 as nat),
    ensures
        b <= inf,
        minus ==> b == rounding::round(
            p as nat,
            inf as nat,
            (m1 * pow2(e1 as nat) - m2 * pow2(e2 as nat)) as nat,
            1,
        ),
        !minus ==> b == rounding::round(
            p as nat,
            inf as nat,
            (m1 * pow2(e1 as nat) + m2 * pow2(e2 as nat)) as nat,
            1,
        ),
{
    let d: u32 = (e1 - e2) as u32;
    let ghost u1: int = m1 * pow2(e1 as nat);
    let ghost u2: int = m2 * pow2(e2 as nat);
    let ghost num: nat = (if minus { u1 - u2 } else { u1 + u2 }) as nat;
    proof {
        lemma_limits();
        vstd::arithmetic::power2::lemma_pow2_pos(e1 as nat);
        vstd::arithmetic::power2::lemma_pow2_pos(e2 as nat);
        assert(u1 > 0) by (nonlinear_arith)
            requires
                u1 == m1 * pow2(e1 as nat),
                m1 > 0,
                pow2(e1 as nat) > 0,
        ;
        assert(u2 >= 0) by (nonlinear_arith)
            requires
                u2 == m2 * pow2(e2 as nat),
                m2 >= 0,
                pow2(e2 as nat) > 0,
        ;
    }
    if m2 == 0 {
        proof {
            assert(u2 == 0);
            assert(num * 1 == num);
            assert(m1 * pow2(e1 as nat) * 1 == num * pow2(0));
            assert((m1 + 1) * pow2(e1 as nat) * 1 > num * pow2(0)) by (nonlinear_arith)
                requires
                    num == m1 * pow2(e1 as nat),
                    pow2(e1 as nat) > 0,
                    pow2(0) == 1,
            ;
        }
        return rounding::round_bits(p, inf, m1 as u128, e1, false, Ghost(num), Ghost(1nat));
    }
    if d <= 64 {
        proof {
            lemma_pow2_le(d as nat, 64);
            vstd::arithmetic::power2::lemma_pow2_adds(d as nat, e2 as nat);
            assert(m1 * pow2(d as nat) <= 0x20_0000_0000_0000 * 0x1_0000_0000_0000_0000) by (nonlinear_arith)
                requires
                    m1 <= 0x20_0000_0000_0000,
                    pow2(d as nat) <= 0x1_0000_0000_0000_0000,
            ;
        }
        let w: u128 = rounding::shift_left(m1 as u128, d);
        proof {
            assert(u1 == w * pow2(e2 as nat)) by (nonlinear_arith)
                requires
                    u1 == m1 * pow2(e1 as nat),
                    pow2(e1 as nat) == pow2(d as nat) * pow2(e2 as nat),
                    w == m1 * pow2(d as nat),
            ;
            if minus {
                assert(w > m2) by (nonlinear_arith)
                    requires
                        w * pow2(e2 as nat) > m2 * pow2(e2 as nat),
                        pow2(e2 as nat) > 0,
                ;
            }
        }
        let s: u128 = if minus { w - m2 as u128 } else { w + m2 as u128 };
        proof {
            let c = pow2(e2 as nat);
            assert(num == s * c) by (nonlinear_arith)
                requires
                    u1 == w * c,
                    u2 == m2 * c,
                    num == (if minus { u1 - u2 } else { u1 + u2 }),
                    s == (if minus { w - m2 } else { w + m2 }),
            ;
            assert(s * c * 1 == num * pow2(0) && (s + 1) * c * 1 > num * pow2(0)) by (nonlinear_arith)
                requires
                    num == s * c,
                    c > 0,
                    pow2(0) == 1,
            ;
        }
        rounding::round_bits(p, inf, s, e2, false, Ghost(num), Ghost(1nat))
    } else {
        let w: u128 = m1 as u128 * 4096;
        let s: u128 = if minus { w - 1 } else { w };
        proof {
            let f = (e1 - 12) as nat;
            let c = pow2(f);
            vstd::arithmetic::power2::lemma_pow2_adds(12, f);
            vstd::arithmetic::power2::lemma_pow2_adds(53, e2 as nat);
            lemma_pow2_le((53 + e2) as nat, f);
            assert(0 < u2 < c) by (nonlinear_arith)
                requires
                    u2 == m2 * pow2(e2 as nat),
                    0 < m2 < pow2(53),
                    pow2(53) * pow2(e2 as nat) <= c,
                    pow2(e2 as nat) > 0,
            ;
            assert(u1 == w * c) by (nonlinear_arith)
                requires
                    u1 == m1 * pow2(e1 as nat),
                    pow2(e1 as nat) == 4096 * c,
                    w == m1 * 4096,
            ;
            assert(s * c * 1 < num * pow2(0) && (s + 1) * c * 1 > num * pow2(0)) by (nonlinear_arith)
                requires
                    num == (if minus { u1 - u2 } else { u1 + u2 }),
                    s == (if minus { w - 1 } else { w as int }),
                    u1 == w * c,
                    0 < u2 < c,
                    pow2(0) == 1,
            ;
            vstd::arithmetic::power2::lemma_pow2_unfold((p + 1) as nat);
            vstd::arithmetic::power2::lemma_pow2_unfold(p as nat);
        }
        rounding::round_bits(p, inf, s, e1 - 12, true, Ghost(num), Ghost(1nat))
    }
}

/// The rounded sum of two finite magnitudes, not both zero.
pub fn add_magnitudes(p: u32, inf: u64, a: u64, b: u64) -> (r: u64)
    requires
        is_format(p, inf),
        a < inf,
        b < inf,
        a > 0 || b > 0,
    ensures
        r <= inf,
        r == rounding::round(
            p as nat,
            inf as nat,
            units(p as nat, a as nat) + units(p as nat, b as nat),
            1,
        ),
{
    let (m1, e1) = unpack(p, inf, a);
    let (m2, e2) = unpack(p, inf, b);
    if e1 > e2 || (e1 == e2 && m1 > 0) {
        proof {
            if m1 == 0 {
                vstd::arithmetic::power2::lemma_pow2_pos((p - 1) as nat);
            }
        }
        combine(p, inf, m1, e1, m2, e2, false)
    } else {
        proof {
            if m2 == 0 {
                vstd::arithmetic::power2::lemma_pow2_pos((p - 1) as nat);
            }
        }
        combine(p, inf, m2, e2, m1, e1, false)
    }
}

/// The rounded difference of two finite magnitudes, the first the larger.
pub fn sub_magnitudes(p: u32, inf: u64, a: u64, b: u64) -> (r: u64)
    requires
        is_format(p, inf),
        b < a < inf,
    ensures
        r <= inf,
        units(p as nat, b as nat) < units(p as nat, a as nat),
        r == rounding::round(
            p as nat,
            inf as nat,
            (units(p as nat, a as nat) - units(p as nat, b as nat)) as nat,
            1,
        ),
{
    proof {
        lemma_units_grow(p as nat, b as nat, a as nat);
    }
    let (m1, e1) = unpack(p, inf, a);
    let (m2, e2) = unpack(p, inf, b);
    proof {
        if e1 < e2 {
            let h = pow2((p - 1) as nat);
            vstd::arithmetic::power2::lemma_pow2_unfold(p as nat);
            vstd::arithmetic::power2::lemma_pow2_unfold(e2 as nat);
            lemma_pow2_le(e1 as nat, (e2 - 1) as nat);
            assert(m1 * pow2(e1 as nat) <= m2 * pow2(e2 as nat)) by (nonlinear_arith)
                requires
                    m1 < 2 * h,
                    m2 >= h,
                    pow2(e2 as nat) >= 2 * pow2(e1 as nat),
                    pow2(e1 as nat) > 0,
            ;
        }
    }
    combine(p, inf, m1, e1, m2, e2, true)
}

proof fn lemma_exact(m: nat, e: int, num: nat, den: nat, up: nat, down: nat)
    requires
        den > 0,
        m > 0,
        up as int - down as int == e,
        up == 0 || down == 0,
        m * pow2(up) * den == num * pow2(down),
    ensures
        rounding::brackets(m, e, false, num, den),
{
    vstd::arithmetic::power2::lemma_pow2_pos(up);
    assert((m + 1) * pow2(up) * den > m * pow2(up) * den) by (nonlinear_arith)
        requires
            den > 0,
            pow2(up) > 0,
    ;
}

/// The rounded product of two positive finite magnitudes.
pub fn mul_magnitudes(p: u32, k: u32, inf: u64, a: u64, b: u64) -> (r: u64)
    requires
        is_format(p, inf),
        k <= 1074,
        0 < a < inf,
        0 < b < inf,
    ensures
        r <= inf,
        r == rounding::round(
            p as nat,
            inf as nat,
            units(p as nat, a as nat) * units(p as nat, b as nat),
            pow2(k as nat),
        ),
{
    let (m1, e1) = unpack(p, inf, a);
    let (m2, e2) = unpack(p, inf, b);
    proof {
        assert(m1 * m2 < 0x20_0000_0000_0000 * 0x20_0000_0000_0000) by (nonlinear_arith)
            requires
                m1 < 0x20_0000_0000_0000,
                m2 < 0x20_0000_0000_0000,
        ;
        assert(m1 * m2 > 0) by (nonlinear_arith)
            requires
                m1 > 0,
                m2 > 0,
        ;
    }
    let m: u128 = m1 as u128 * m2 as u128;
    let e: i32 = e1 + e2 - k as i32;
    let ghost num: nat = units(p as nat, a as nat) * units(p as nat, b as nat);
    proof {
        let up: nat = if e >= 0 { e as nat } else { 0 };
        let down: nat = if e >= 0 { 0 } else { (-e) as nat };
        vstd::arithmetic::power2::lemma_pow2_adds(e1 as nat, e2 as nat);
        vstd::arithmetic::power2::lemma_pow2_adds(up, k as nat);
        vstd::arithmetic::power2::lemma_pow2_adds((e1 + e2) as nat, down);
        vstd::arithmetic::power2::lemma_pow2_pos(k as nat);
        let z1 = pow2(e1 as nat);
        let z2 = pow2(e2 as nat);
        assert(m * pow2(up) * pow2(k as nat) == num * pow2(down)) by (nonlinear_arith)
            requires
                m == m1 * m2,
                num == (m1 * z1) * (m2 * z2),
                z1 * z2 == pow2((e1 + e2) as nat),
                pow2(up) * pow2(k as nat) == pow2((e1 + e2) as nat) * pow2(down),
        ;
        lemma_exact(m as nat, e as int, num, pow2(k as nat), up, down);
        lemma_limits();
    }
    rounding::round_bits(p, inf, m, e, false, Ghost(num), Ghost(pow2(k as nat)))
}

/// The rounded quotient of two positive finite magnitudes.
pub fn div_magnitudes(p: u32, k: u32, inf: u64, a: u64, b: u64) -> (r: u64)
    requires
        is_format(p, inf),
        k <= 1074,
        0 < a < inf,
        0 < b < inf,
    ensures
        r <= inf,
        r == rounding::round(
            p as nat,
            inf as nat,
            units(p as nat, a as nat) * pow2(k as nat),
            units(p as nat, b as nat),
        ),
{
    let (m1, e1) = unpack(p, inf, a);
    let (m2, e2) = unpack(p, inf, b);
    let len: u32 = rounding::bit_length(m1 as u128);
    proof {
        lemma_limits();
        if len > 53 {
            lemma_pow2_le(53, (len - 1) as nat);
        }
        vstd::arithmetic::power2::lemma_pow2_adds((len - 1) as nat, (127 - len) as nat);
        vstd::arithmetic::power2::lemma_pow2_adds(len as nat, (127 - len) as nat);
        vstd::arithmetic::power2::lemma_pow2_pos((127 - len) as nat);
        assert(pow2(126) <= m1 * pow2((127 - len) as nat) < pow2(127)) by (nonlinear_arith)
            requires
                pow2((len - 1) as nat) <= m1 < pow2(len as nat),
                pow2((len - 1) as nat) * pow2((127 - len) as nat) == pow2(126),
                pow2(len as nat) * pow2((127 - len) as nat) == pow2(127),
                pow2((127 - len) as nat) > 0,
        ;
    }
    let s: u32 = 127 - len;
    let w: u128 = rounding::shift_left(m1 as u128, s);
    let m: u128 = w / m2 as u128;
    let rest: u128 = w % m2 as u128;
    let e: i32 = e1 - e2 - s as i32 + k as i32;
    let ghost num: nat = units(p as nat, a as nat) * pow2(k as nat);
    let ghost den: nat = units(p as nat, b as nat);
    proof {
        vstd::arithmetic::div_mod::lemma_fundamental_div_mod(w as int, m2 as int);
        vstd::arithmetic::power2::lemma_pow2_adds(53, 73);
        lemma_pow2_le((p + 1) as nat, 73);
        assert(m >= pow2(73)) by (nonlinear_arith)
            requires
                w == m2 * m + rest,
                rest < m2,
                m2 < pow2(53),
                w >= pow2(126),
                pow2(126) == pow2(53) * pow2(73),
        ;
        assert(m <= w) by (nonlinear_arith)
            requires
                w == m2 * m + rest,
                m2 >= 1,
                rest >= 0,
                m >= 0,
        ;
        let up: nat = if e >= 0 { e as nat } else { 0 };
        let down: nat = if e >= 0 { 0 } else { (-e) as nat };
        let ps = pow2(s as nat);
        let z = pow2(down) * pow2((e1 + k) as nat);
        vstd::arithmetic::power2::lemma_pow2_adds(e1 as nat, k as nat);
        vstd::arithmetic::power2::lemma_pow2_adds(down, (e1 + k) as nat);
        vstd::arithmetic::power2::lemma_pow2_adds(up, e2 as nat);
        vstd::arithmetic::power2::lemma_pow2_adds((up + e2) as nat, s as nat);
        vstd::arithmetic::power2::lemma_pow2_pos(s as nat);
        vstd::arithmetic::power2::lemma_pow2_pos(e2 as nat);
        vstd::arithmetic::power2::lemma_pow2_pos((down + e1 + k) as nat);
        assert(up + e2 + s == down + (e1 + k));
        let x2 = pow2(e2 as nat);
        let xu = pow2(up);
        assert(den > 0) by (nonlinear_arith)
            requires
                den == m2 * x2,
                m2 > 0,
                x2 > 0,
        ;
        let lo = m * xu * den;
        let hi = (m + 1) * xu * den;
        let mid = num * pow2(down);
        assert(mid * ps == w * z && lo * ps == (m * m2) * z && hi * ps == (m * m2 + m2) * z) by (nonlinear_arith)
            requires
                mid == num * pow2(down),
                num == (m1 * pow2(e1 as nat)) * pow2(k as nat),
                pow2(e1 as nat) * pow2(k as nat) == pow2((e1 + k) as nat),
                z == pow2(down) * pow2((e1 + k) as nat),
                w == m1 * ps,
                lo == m * xu * den,
                hi == (m + 1) * xu * den,
                den == m2 * x2,
                xu * x2 * ps == z,
        ;
        assert(lo <= mid < hi && (lo == mid <==> rest == 0)) by (nonlinear_arith)
            requires
                mid * ps == w * z,
                lo * ps == (m * m2) * z,
                hi * ps == (m * m2 + m2) * z,
                w == m2 * m + rest,
                0 <= rest < m2,
                z > 0,
                ps > 0,
        ;
    }
    rounding::round_bits(p, inf, m, e, rest != 0, Ghost(num), Ghost(den))
}

/// The largest integer whose square is at most `n`.
pub open spec fn floor_sqrt(n: nat) -> nat
    decreases n,
{
    if n == 0 {
        0
    } else {
        let r = 2 * floor_sqrt(n / 4);
        if (r + 1) * (r + 1) <= n {
            r + 1
        } else {
            r
        }
    }
}

pub(crate) proof fn lemma_floor_sqrt(n: nat)
    ensures
        floor_sqrt(n) * floor_sqrt(n) <= n < (floor_sqrt(n) + 1) * (floor_sqrt(n) + 1),
    decreases n,
{
    if n > 0 {
        lemma_floor_sqrt(n / 4);
        let h = floor_sqrt(n / 4);
        assert((2 * h) * (2 * h) <= n < (2 * h + 2) * (2 * h + 2)) by (nonlinear_arith)
            requires
                h * h <= n / 4 < (h + 1) * (h + 1),
        ;
        let r = 2 * h;
        let f = floor_sqrt(n);
        assert(f * f <= n < (f + 1) * (f + 1)) by (nonlinear_arith)
            requires
                r == 2 * h,
                (2 * h) * (2 * h) <= n < (2 * h + 2) * (2 * h + 2),
                f == (if (r + 1) * (r + 1) <= n {
                    r + 1
                } else {
                    r
                }),
        ;
    } else {
        let f = floor_sqrt(n);
        assert(f * f <= n < (f + 1) * (f + 1)) by (nonlinear_arith)
            requires
                f == 0,
                n == 0,
        ;
    }
}

/// The integer square root of `x`.
fn integer_sqrt(x: u128) -> (r: u64)
    ensures
        r * r <= x < (r + 1) * (r + 1),
{
    let mut r: u64 = 0;
    let mut step: u64 = 0x8000_0000_0000_0000;
    proof {
        assert(x < 0x1_0000_0000_0000_0000 * 0x1_0000_0000_0000_0000);
        assert(0x1_0000_0000_0000_0000 - 1 == u64::MAX);
    }
    let mut i: u32 = 64;
    proof {
        vstd::arithmetic::power2::lemma2_to64();
        vstd::arithmetic::power2::lemma2_to64_rest();
    }
    while i > 0
        invariant
            i <= 64,
            i > 0 ==> step == pow2((i - 1) as nat),
            r + pow2(i as nat) <= 0x1_0000_0000_0000_0000,
            r * r <= x < (r + pow2(i as nat)) * (r + pow2(i as nat)),
        decreases i,
    {
        proof {
            vstd::arithmetic::power2::lemma_pow2_unfold(i as nat);
            vstd::arithmetic::power2::lemma_pow2_pos((i - 1) as nat);
            vstd::arithmetic::power2::lemma2_to64();
        }
        let c: u64 = r + step;
        proof {
            assert(c * c <= 0xffff_ffff_ffff_ffff * 0xffff_ffff_ffff_ffff) by (nonlinear_arith)
                requires
                    0 <= c <= 0xffff_ffff_ffff_ffff,
            ;
        }
        if c as u128 * c as u128 <= x {
            r = c;
        }
        i = i - 1;
        if i > 0 {
            proof {
                vstd::arithmetic::power2::lemma_pow2_unfold(i as nat);
            }
            step = step / 2;
        }
    }
    proof {
        vstd::arithmetic::power2::lemma2_to64();
    }
    r
}

/// The square root of a positive finite double magnitude, rounded. The root of `u` units is
/// `sqrt(u * 2^1074)` units, far above `2^53`, so a root strictly between two integers rounds as
/// the point halfway between them does.
pub open spec fn round_sqrt(u: nat) -> nat {
    let n = u * pow2(1074);
    let r = floor_sqrt(n);
    if r * r == n {
        rounding::round(53, 0x7ff0_0000_0000_0000, r, 1)
    } else {
        rounding::round(53, 0x7ff0_0000_0000_0000, 2 * r + 1, 2)
    }
}

pub fn sqrt_magnitude(a: u64) -> (r: u64)
    requires
        0 < a < 0x7ff0_0000_0000_0000,
    ensures
        r <= 0x7ff0_0000_0000_0000,
        r == round_sqrt(units(53, a as nat)),
{
    let inf: u64 = 0x7ff0_0000_0000_0000;
    let (m, e) = unpack(53, inf, a);
    let len: u32 = rounding::bit_length(m as u128);
    proof {
        lemma_limits();
        if len > 53 {
            lemma_pow2_le(53, (len - 1) as nat);
        }
    }
    let s0: u32 = 126 - len;
    let odd: bool = (e + 1074 - s0 as i32) % 2 != 0;
    let s: u32 = if odd { s0 - 1 } else { s0 };
    proof {
        vstd::arithmetic::power2::lemma_pow2_adds((len - 1) as nat, s as nat);
        vstd::arithmetic::power2::lemma_pow2_adds(len as nat, s as nat);
        lemma_pow2_le(124, (len - 1 + s) as nat);
        lemma_pow2_le((len + s) as nat, 126);
        lemma_pow2_le(126, 127);
        vstd::arithmetic::power2::lemma_pow2_pos(s as nat);
        assert(pow2(124) <= m * pow2(s as nat) < pow2(126)) by (nonlinear_arith)
            requires
                pow2((len - 1) as nat) <= m < pow2(len as nat),
                pow2((len - 1) as nat) * pow2(s as nat) >= pow2(124),
                pow2(len as nat) * pow2(s as nat) <= pow2(126),
                pow2(s as nat) > 0,
        ;
    }
    let x: u128 = rounding::shift_left(m as u128, s);
    let r: u64 = integer_sqrt(x);
    let h: i32 = (e + 1074 - s as i32) / 2;
    let sticky: bool = r as u128 * r as u128 != x;
    let ghost n: nat = units(53, a as nat) * pow2(1074);
    let ghost root: nat = floor_sqrt(n);
    let ghost num: nat = if root * root == n { root } else { 2 * root + 1 };
    let ghost den: nat = if root * root == n { 1 } else { 2 };
    proof {
        lemma_floor_sqrt(n);
        let g = pow2(h as nat);
        vstd::arithmetic::power2::lemma_pow2_adds(e as nat, 1074);
        vstd::arithmetic::power2::lemma_pow2_adds(h as nat, h as nat);
        vstd::arithmetic::power2::lemma_pow2_adds(s as nat, (h + h) as nat);
        assert(s + h + h == e + 1074);
        assert(n == x * (g * g)) by (nonlinear_arith)
            requires
                n == (m * pow2(e as nat)) * pow2(1074),
                pow2(e as nat) * pow2(1074) == pow2(s as nat) * (g * g),
                x == m * pow2(s as nat),
        ;
        vstd::arithmetic::power2::lemma_pow2_pos(h as nat);
        assert((r * g) * (r * g) <= n < ((r + 1) * g) * ((r + 1) * g)) by (nonlinear_arith)
            requires
                n == x * (g * g),
                r * r <= x < (r + 1) * (r + 1),
                g > 0,
        ;
        let lo = r * g;
        let hi = (r + 1) * g;
        assert(lo <= root < hi) by (nonlinear_arith)
            requires
                lo * lo <= n < hi * hi,
                root * root <= n < (root + 1) * (root + 1),
                lo >= 0,
                hi >= 0,
                root >= 0,
        ;
        if r * r == x {
            assert(n == lo * lo) by (nonlinear_arith)
                requires
                    n == x * (g * g),
                    x == r * r,
                    lo == r * g,
            ;
            assert(root == lo) by (nonlinear_arith)
                requires
                    n == lo * lo,
                    root * root <= n < (root + 1) * (root + 1),
                    lo >= 0,
                    root >= 0,
            ;
        } else {
            assert(n != lo * lo) by (nonlinear_arith)
                requires
                    n == x * (g * g),
                    r * r < x,
                    lo == r * g,
                    g > 0,
            ;
            if root * root == n {
                assert(root > lo);
            }
        }
        assert(r >= 0x4000_0000_0000_0000) by {
            vstd::arithmetic::power2::lemma_pow2_adds(62, 62);
            vstd::arithmetic::power2::lemma2_to64_rest();
            assert(r >= pow2(62)) by (nonlinear_arith)
                requires
                    (r + 1) * (r + 1) > x,
                    x >= pow2(62) * pow2(62),
                    r >= 0,
            ;
        }
        vstd::arithmetic::power2::lemma2_to64_rest();
        assert(pow2(0) == 1);
        assert(r * g * 1 == lo && (r + 1) * g * 1 == hi);
        assert(r * g * 2 == 2 * lo && (r + 1) * g * 2 == 2 * hi);
        assert(num * 1 == num);
    }
    rounding::round_bits(53, inf, r as u128, h, sticky, Ghost(num), Ghost(den))
}

/// Rounds a positive finite double magnitude to single.
pub fn narrow_magnitude(a: u64) -> (r: u64)
    requires
        0 < a < 0x7ff0_0000_0000_0000,
    ensures
        r <= 0x7f80_0000,
        r == rounding::round(24, 0x7f80_0000, units(53, a as nat), pow2(925)),
{
    let (m, e) = unpack(53, 0x7ff0_0000_0000_0000, a);
    let f: i32 = e - 925;
    let ghost num: nat = units(53, a as nat);
    proof {
        let up: nat = if f >= 0 { f as nat } else { 0 };
        let down: nat = if f >= 0 { 0 } else { (-f) as nat };
        vstd::arithmetic::power2::lemma_pow2_adds(up, 925);
        vstd::arithmetic::power2::lemma_pow2_adds(e as nat, down);
        vstd::arithmetic::power2::lemma_pow2_pos(925);
        assert(m * pow2(up) * pow2(925) == num * pow2(down)) by (nonlinear_arith)
            requires
                num == m * pow2(e as nat),
                pow2(up) * pow2(925) == pow2(e as nat) * pow2(down),
        ;
        lemma_exact(m as nat, f as int, num, pow2(925), up, down);
        lemma_limits();
    }
    rounding::round_bits(24, 0x7f80_0000, m as u128, f, false, Ghost(num), Ghost(pow2(925)))
}

/// A positive finite single magnitude in double.
pub fn widen_magnitude(a: u64) -> (r: u64)
    requires
        0 < a < 0x7f80_0000,
    ensures
        r <= 0x7ff0_0000_0000_0000,
        r == rounding::round(53, 0x7ff0_0000_0000_0000, units(24, a as nat) * pow2(925), 1),
{
    let (m, e) = unpack(24, 0x7f80_0000, a);
    let f: i32 = e + 925;
    let ghost num: nat = units(24, a as nat) * pow2(925);
    proof {
        vstd::arithmetic::power2::lemma_pow2_adds(e as nat, 925);
        lemma_limits();
        assert(m * pow2(f as nat) * 1 == num * pow2(0)) by (nonlinear_arith)
            requires
                num == (m * pow2(e as nat)) * pow2(925),
                pow2(f as nat) == pow2(e as nat) * pow2(925),
                pow2(0) == 1,
        ;
        lemma_exact(m as nat, f as int, num, 1, f as nat, 0);
    }
    rounding::round_bits(53, 0x7ff0_0000_0000_0000, m as u128, f, false, Ghost(num), Ghost(1nat))
}

} // verus!
