//! Rounding of an exact magnitude to a binary floating-point format.
//!
//! A format keeps `p` significant bits and counts in units of its least subnormal number. A finite
//! magnitude is then a whole number of units, and its bit pattern (the sign bit aside) is an
//! integer that grows with it: `t * 2^(p-1) + q` for the magnitude `q * 2^t` units. Everything the
//! arithmetic computes is an exact rational `num / den` of units, rounded once to the nearest
//! magnitude of the format, a tie going to the even one.

use vstd::prelude::*;
use vstd::arithmetic::power2::pow2;

verus! {

/// `a / b` rounded to the nearest integer, a tie to the even one.
pub open spec fn nearest_even(a: nat, b: nat) -> nat {
    let q = a / b;
    let r = a % b;
    if 2 * r < b || (2 * r == b && q % 2 == 0) {
        q
    } else {
        q + 1
    }
}

/// The exponent of the last place kept of `num / den` units: the least `t` with
/// `num / den < 2^(t + p)`.
pub open spec fn last_place(p: nat, num: nat, den: nat) -> nat
    decreases (if num >= den { num - den + 1 } else { 0 }),
{
    if den == 0 || num < den * pow2(p) {
        0
    } else {
        proof {
            vstd::arithmetic::power2::lemma_pow2_pos(p);
            assert(den * pow2(p) >= den) by (nonlinear_arith)
                requires
                    pow2(p) >= 1,
            ;
        }
        1 + last_place(p, num, 2 * den)
    }
}

/// The bit pattern of `num / den` units rounded to `p` bits; `inf` is infinity's pattern, which a
/// magnitude past the largest finite one takes.
pub open spec fn round(p: nat, inf: nat, num: nat, den: nat) -> nat {
    let t = last_place(p, num, den);
    let b = t * pow2((p - 1) as nat) + nearest_even(num, den * pow2(t));
    if b < inf {
        b
    } else {
        inf
    }
}

/// `num / den` units lie in `[m * 2^e, (m + 1) * 2^e)`, at the lower end exactly when `sticky` is
/// not set.
pub open spec fn brackets(m: nat, e: int, sticky: bool, num: nat, den: nat) -> bool {
    let up = pow2(if e >= 0 { e as nat } else { 0 });
    let down = pow2(if e >= 0 { 0 } else { (-e) as nat });
    &&& m * up * den <= num * down < (m + 1) * up * den
    &&& sticky <==> num * down != m * up * den
}

pub(crate) proof fn lemma_last_place(p: nat, num: nat, den: nat, t: nat)
    requires
        den > 0,
        num < den * pow2(t + p),
        t == 0 || num >= den * pow2((t - 1 + p) as nat),
    ensures
        last_place(p, num, den) == t,
    decreases t,
{
    if t == 0 {
    } else {
        let h = (t - 1 + p) as nat;
        assert(den * pow2(h) >= den * pow2(p)) by {
            if t > 1 {
                vstd::arithmetic::power2::lemma_pow2_strictly_increases(p, h);
            }
            assert(den * pow2(h) >= den * pow2(p)) by (nonlinear_arith)
                requires
                    pow2(h) >= pow2(p),
            ;
        }
        vstd::arithmetic::power2::lemma_pow2_unfold(t + p);
        assert(den * pow2(t + p) == (2 * den) * pow2(h)) by (nonlinear_arith)
            requires
                pow2(t + p) == 2 * pow2(h),
        ;
        if t > 1 {
            vstd::arithmetic::power2::lemma_pow2_unfold(h);
            assert(den * pow2(h) == (2 * den) * pow2((h - 1) as nat)) by (nonlinear_arith)
                requires
                    pow2(h) == 2 * pow2((h - 1) as nat),
            ;
        }
        lemma_last_place(p, num, 2 * den, (t - 1) as nat);
    }
}

pub(crate) proof fn lemma_nearest_even_is(a: nat, b: nat, q: nat, r: nat)
    requires
        a == q * b + r,
        r < b,
    ensures
        nearest_even(a, b) == (if 2 * r < b || (2 * r == b && q % 2 == 0) {
            q
        } else {
            q + 1
        }),
{
    vstd::arithmetic::div_mod::lemma_fundamental_div_mod_converse(a as int, b as int, q as int, r as int);
}

pub(crate) proof fn lemma_nearest_even_scale(a: nat, b: nat, c: nat)
    requires
        b > 0,
        c > 0,
    ensures
        nearest_even(a * c, b * c) == nearest_even(a, b),
{
    let q = a / b;
    let r = a % b;
    vstd::arithmetic::div_mod::lemma_fundamental_div_mod(a as int, b as int);
    assert(a * c == q * (b * c) + r * c && r * c < b * c && (2 * (r * c) < b * c <==> 2 * r < b) && (
    2 * (r * c) == b * c <==> 2 * r == b)) by (nonlinear_arith)
        requires
            a == b * q + r,
            r < b,
            c > 0,
    ;
    lemma_nearest_even_is(a * c, b * c, q, r * c);
}

/// The significant bits of a positive integer.
pub fn bit_length(m: u128) -> (n: u32)
    requires
        m > 0,
    ensures
        1 <= n <= 128,
        pow2((n - 1) as nat) <= m < pow2(n as nat),
{
    let mut x: u128 = m;
    let mut n: u32 = 0;
    let mut step: u32 = 64;
    proof {
        vstd::arithmetic::power2::lemma2_to64();
        vstd::arithmetic::power2::lemma_pow2_adds(64, 64);
        assert(0x1_0000_0000_0000_0000nat * 0x1_0000_0000_0000_0000nat
            == 0x1_0000_0000_0000_0000_0000_0000_0000_0000nat) by (nonlinear_arith);
    }
    while step > 0
        invariant
            step == 64 || step == 32 || step == 16 || step == 8 || step == 4 || step == 2 || step == 1
                || step == 0,
            n + 2 * step <= 128,
            step == 0 ==> n <= 127,
            1 <= x,
            step > 0 ==> x < pow2(2 * step as nat),
            step == 0 ==> x == 1,
            x * pow2(n as nat) <= m < (x + 1) * pow2(n as nat),
        decreases step,
    {
        let ghost x0 = x;
        let ghost n0 = n;
        let y: u128 = x >> step;
        proof {
            vstd::bits::lemma_u128_shr_is_div(x, step as u128);
            assert(x >> step == x >> (step as u128));
            vstd::arithmetic::power2::lemma2_to64();
            let d = pow2(step as nat);
            vstd::arithmetic::power2::lemma_pow2_pos(step as nat);
            vstd::arithmetic::power2::lemma_pow2_adds(step as nat, step as nat);
            vstd::arithmetic::div_mod::lemma_fundamental_div_mod(x as int, d as int);
            vstd::arithmetic::power2::lemma_pow2_adds(step as nat, n as nat);
            let s = pow2(n as nat);
            assert((y * (d * s) <= m < (y + 1) * (d * s)) && y < d) by (nonlinear_arith)
                requires
                    x == d * y + (x as int) % (d as int),
                    0 <= (x as int) % (d as int) < d,
                    x * s <= m < (x + 1) * s,
                    x < d * d,
                    d > 0,
            ;
            assert(y == 0 ==> x < d) by (nonlinear_arith)
                requires
                    x == d * y + (x as int) % (d as int),
                    0 <= (x as int) % (d as int) < d,
            ;
        }
        if y > 0 {
            x = y;
            n = n + step;
        }
        if step == 1 {
            step = 0;
        } else {
            step = step / 2;
        }
    }
    proof {
        vstd::arithmetic::power2::lemma_pow2_unfold((n + 1) as nat);
        assert(1 * pow2(n as nat) == pow2(n as nat));
    }
    n + 1
}

proof fn lemma_shl_is_mul(m: u128, n: u32)
    requires
        n < 128,
        m * pow2(n as nat) <= u128::MAX,
    ensures
        (m << n) == m * pow2(n as nat),
    decreases n,
{
    if n == 0 {
        assert(m << 0u32 == m) by (bit_vector);
        vstd::arithmetic::power2::lemma2_to64();
    } else {
        let h = (n - 1) as u32;
        vstd::arithmetic::power2::lemma_pow2_unfold(n as nat);
        assert(m * pow2(n as nat) == 2 * (m * pow2(h as nat))) by (nonlinear_arith)
            requires
                pow2(n as nat) == 2 * pow2(h as nat),
        ;
        lemma_shl_is_mul(m, h);
        let y: u128 = m << h;
        assert(y <= 0x7fff_ffff_ffff_ffff_ffff_ffff_ffff_ffffu128 ==> m << n == y * 2) by (bit_vector)
            requires
                y == m << h,
                n == h + 1,
                n < 128,
        ;
    }
}

/// `m * 2^n` where it fits.
pub fn shift_left(m: u128, n: u32) -> (r: u128)
    requires
        n < 128,
        m * pow2(n as nat) <= u128::MAX,
    ensures
        r == m * pow2(n as nat),
{
    proof {
        lemma_shl_is_mul(m, n);
    }
    m << n
}

/// `m / 2^n` and whether the remainder lies below (0), at (1) or above (2) half of `2^n`.
fn split(m: u128, n: u32) -> (r: (u128, u8))
    requires
        1 <= n <= 127,
    ensures
        r.0 == m as nat / pow2(n as nat),
        ({
            let rest = m as nat % pow2(n as nat);
            let half = pow2((n - 1) as nat);
            &&& r.1 == 0 <==> rest < half
            &&& r.1 == 1 <==> rest == half
            &&& r.1 == 2 <==> rest > half
        }),
{
    let h: u32 = n - 1;
    let q: u128 = m >> n;
    proof {
        vstd::bits::lemma_u128_shr_is_div(m, n as u128);
        assert(m >> n == m >> (n as u128));
        vstd::arithmetic::power2::lemma_pow2_pos(n as nat);
        vstd::arithmetic::power2::lemma_pow2_pos(h as nat);
        vstd::arithmetic::power2::lemma_pow2_unfold(n as nat);
        vstd::arithmetic::div_mod::lemma_fundamental_div_mod(m as int, pow2(n as nat) as int);
        assert(q * pow2(n as nat) == pow2(n as nat) * q) by (nonlinear_arith);
        lemma_pow2_fits(h as nat);
    }
    let rest: u128 = m - shift_left(q, n);
    proof {
        assert(1 * pow2(h as nat) == pow2(h as nat));
    }
    let half: u128 = shift_left(1, h);
    if rest < half {
        (q, 0)
    } else if rest == half {
        (q, 1)
    } else {
        (q, 2)
    }
}

pub(crate) proof fn lemma_pow2_fits(n: nat)
    requires
        n <= 127,
    ensures
        pow2(n) <= 0x8000_0000_0000_0000_0000_0000_0000_0000,
{
    vstd::arithmetic::power2::lemma2_to64();
    vstd::arithmetic::power2::lemma2_to64_rest();
    vstd::arithmetic::power2::lemma_pow2_adds(64, 63);
    if n < 127 {
        vstd::arithmetic::power2::lemma_pow2_strictly_increases(n, 127);
    }
    assert(0x1_0000_0000_0000_0000nat * 0x8000_0000_0000_0000nat
        == 0x8000_0000_0000_0000_0000_0000_0000_0000nat) by (nonlinear_arith);
}

proof fn lemma_round_shifted(p: nat, m: nat, e: int, sticky: bool, num: nat, den: nat, t: nat, s: nat)
    requires
        den > 0,
        brackets(m, e, sticky, num, den),
        s > 0,
        t == e + s,
    ensures
        ({
            let q = m / pow2(s);
            let rest = m % pow2(s);
            let half = pow2((s - 1) as nat);
            nearest_even(num, den * pow2(t)) == (if rest < half || (rest == half && !sticky && q % 2 == 0) {
                q
            } else {
                q + 1
            })
        }),
{
    let u: nat = if e >= 0 { e as nat } else { 0 };
    let d: nat = if e >= 0 { 0 } else { (-e) as nat };
    let up = pow2(u);
    let down = pow2(d);
    let x = num * down;
    let y = up * den;
    let ps = pow2(s);
    let half = pow2((s - 1) as nat);
    vstd::arithmetic::power2::lemma_pow2_pos(u);
    vstd::arithmetic::power2::lemma_pow2_pos(d);
    vstd::arithmetic::power2::lemma_pow2_pos(s);
    vstd::arithmetic::power2::lemma_pow2_pos(t);
    vstd::arithmetic::power2::lemma_pow2_unfold(s);
    vstd::arithmetic::power2::lemma_pow2_adds(t, d);
    vstd::arithmetic::power2::lemma_pow2_adds(s, u);
    assert(t + d == s + u);
    assert(y > 0) by (nonlinear_arith)
        requires
            up > 0,
            den > 0,
            y == up * den,
    ;
    assert((den * pow2(t)) * down == y * ps) by (nonlinear_arith)
        requires
            pow2(t) * down == ps * up,
            y == up * den,
    ;
    assert(den * pow2(t) > 0) by (nonlinear_arith)
        requires
            den > 0,
            pow2(t) > 0,
    ;
    lemma_nearest_even_scale(num, den * pow2(t), down);
    let q = m / ps;
    let rest = m % ps;
    vstd::arithmetic::div_mod::lemma_fundamental_div_mod(m as int, ps as int);
    assert(m * up * den == m * y && (m + 1) * up * den == m * y + y) by (nonlinear_arith)
        requires
            y == up * den,
    ;
    let f = (x - m * y) as nat;
    let rem = rest * y + f;
    assert(x == q * (y * ps) + rem) by (nonlinear_arith)
        requires
            x == m * y + f,
            m == ps * q + rest,
            rem == rest * y + f,
    ;
    assert(rem < y * ps) by (nonlinear_arith)
        requires
            rem == rest * y + f,
            f < y,
            rest + 1 <= ps,
    ;
    lemma_nearest_even_is(x, y * ps, q, rem);
    assert(rest < half ==> 2 * rem < y * ps) by (nonlinear_arith)
        requires
            rem == rest * y + f,
            f < y,
            ps == 2 * half,
    ;
    assert(rest > half ==> 2 * rem > y * ps) by (nonlinear_arith)
        requires
            rem == rest * y + f,
            0 <= f,
            y > 0,
            ps == 2 * half,
    ;
    assert(rest == half ==> 2 * rem == y * ps + 2 * f) by (nonlinear_arith)
        requires
            rem == rest * y + f,
            ps == 2 * half,
    ;
}

proof fn lemma_round_exact(m: nat, e: int, num: nat, den: nat, t: nat, n: nat)
    requires
        den > 0,
        brackets(m, e, false, num, den),
        e == t + n,
    ensures
        nearest_even(num, den * pow2(t)) == m * pow2(n),
{
    vstd::arithmetic::power2::lemma2_to64();
    vstd::arithmetic::power2::lemma_pow2_adds(t, n);
    vstd::arithmetic::power2::lemma_pow2_pos(t);
    let b = den * pow2(t);
    assert(b > 0) by (nonlinear_arith)
        requires
            den > 0,
            pow2(t) > 0,
            b == den * pow2(t),
    ;
    assert(num == (m * pow2(n)) * b + 0) by (nonlinear_arith)
        requires
            num * 1 == m * pow2(e as nat) * den,
            pow2(e as nat) == pow2(t) * pow2(n),
            b == den * pow2(t),
    ;
    lemma_nearest_even_is(num, b, m * pow2(n), 0);
}

proof fn lemma_place(p: nat, m: nat, e: int, sticky: bool, num: nat, den: nat, len: nat, t: nat)
    requires
        den > 0,
        brackets(m, e, sticky, num, den),
        len >= 1,
        pow2((len - 1) as nat) <= m < pow2(len),
        t >= e + len - p,
        t == 0 || t == e + len - p,
    ensures
        last_place(p, num, den) == t,
{
    let u: nat = if e >= 0 { e as nat } else { 0 };
    let d: nat = if e >= 0 { 0 } else { (-e) as nat };
    let up = pow2(u);
    let down = pow2(d);
    vstd::arithmetic::power2::lemma_pow2_pos(u);
    vstd::arithmetic::power2::lemma_pow2_pos(d);
    vstd::arithmetic::power2::lemma_pow2_adds(len, u);
    vstd::arithmetic::power2::lemma_pow2_adds(t + p, d);
    if len + u < t + p + d {
        vstd::arithmetic::power2::lemma_pow2_strictly_increases(len + u, t + p + d);
    }
    assert(num < den * pow2(t + p)) by (nonlinear_arith)
        requires
            num * down < (m + 1) * up * den,
            m + 1 <= pow2(len),
            pow2(len) * up <= pow2(t + p) * down,
            down > 0,
            up > 0,
            den > 0,
    ;
    if t > 0 {
        let h = (t - 1 + p) as nat;
        vstd::arithmetic::power2::lemma_pow2_adds((len - 1) as nat, u);
        vstd::arithmetic::power2::lemma_pow2_adds(h, d);
        assert(num >= den * pow2(h)) by (nonlinear_arith)
            requires
                num * down >= m * up * den,
                m >= pow2((len - 1) as nat),
                pow2((len - 1) as nat) * up == pow2(h) * down,
                down > 0,
                up > 0,
                den > 0,
        ;
    }
    lemma_last_place(p, num, den, t);
}

/// Rounds the exact magnitude `num / den` units to `p` bits, from an integer `m` with
/// `m * 2^e <= num / den < (m + 1) * 2^e`.
pub fn round_bits(
    p: u32,
    inf: u64,
    m: u128,
    e: i32,
    sticky: bool,
    Ghost(num): Ghost<nat>,
    Ghost(den): Ghost<nat>,
) -> (b: u64)
    requires
        (p == 24 && inf == 0x7f80_0000) || (p == 53 && inf == 0x7ff0_0000_0000_0000),
        0 < m < 0x8000_0000_0000_0000_0000_0000_0000_0000,
        -10000 <= e <= 10000,
        den > 0,
        brackets(m as nat, e as int, sticky, num, den),
        sticky ==> m >= pow2((p + 1) as nat),
    ensures
        b == round(p as nat, inf as nat, num, den),
        b <= inf,
{
    let len: u32 = bit_length(m);
    let c: i32 = e + len as i32 - p as i32;
    let t: i32 = if c > 0 { c } else { 0 };
    proof {
        lemma_place(p as nat, m as nat, e as int, sticky, num, den, len as nat, t as nat);
        vstd::arithmetic::power2::lemma2_to64();
        vstd::arithmetic::power2::lemma2_to64_rest();
    }
    let ghost half_range = pow2((p - 1) as nat);
    let top: i32 = if p == 24 { 255 } else { 2047 };
    if t >= top {
        proof {
            assert(t * half_range >= inf) by (nonlinear_arith)
                requires
                    t >= top,
                    top * half_range == inf,
            ;
        }
        return inf;
    }
    let s: i32 = t - e;
    let q: u128;
    if s <= 0 {
        let n: u32 = (-s) as u32;
        proof {
            if sticky {
                if len <= p + 1 {
                    if len < p + 1 {
                        vstd::arithmetic::power2::lemma_pow2_strictly_increases(len as nat, (p + 1) as nat);
                    }
                }
            }
            assert(!sticky);
            lemma_round_exact(m as nat, e as int, num, den, t as nat, n as nat);
            vstd::arithmetic::power2::lemma_pow2_adds(len as nat, n as nat);
            vstd::arithmetic::power2::lemma_pow2_pos(n as nat);
            if len + n < p {
                vstd::arithmetic::power2::lemma_pow2_strictly_increases((len + n) as nat, p as nat);
            }
            assert(m * pow2(n as nat) <= pow2(p as nat)) by (nonlinear_arith)
                requires
                    m <= pow2(len as nat),
                    pow2(len as nat) * pow2(n as nat) <= pow2(p as nat),
                    pow2(n as nat) > 0,
            ;
        }
        q = shift_left(m, n);
    } else {
        proof {
            lemma_round_shifted(p as nat, m as nat, e as int, sticky, num, den, t as nat, s as nat);
        }
        if s > 127 {
            proof {
                vstd::arithmetic::power2::lemma_pow2_adds(64, 63);
                assert(0x1_0000_0000_0000_0000nat * 0x8000_0000_0000_0000nat
                    == 0x8000_0000_0000_0000_0000_0000_0000_0000nat) by (nonlinear_arith);
                if s > 128 {
                    vstd::arithmetic::power2::lemma_pow2_strictly_increases(127, (s - 1) as nat);
                }
                vstd::arithmetic::power2::lemma_pow2_unfold(s as nat);
                vstd::arithmetic::div_mod::lemma_fundamental_div_mod_converse(
                    m as int,
                    pow2(s as nat) as int,
                    0,
                    m as int,
                );
            }
            q = 0;
        } else {
            let parts = split(m, s as u32);
            let up: bool = parts.1 == 2 || (parts.1 == 1 && (sticky || parts.0 % 2 == 1));
            proof {
                vstd::arithmetic::power2::lemma_pow2_pos(s as nat);
                vstd::arithmetic::power2::lemma_pow2_adds(s as nat, (len - s) as nat);
                lemma_quotient_bound(m as nat, s as nat, len as nat, p as nat);
            }
            if up {
                q = parts.0 + 1;
            } else {
                q = parts.0;
            }
        }
    }
    proof {
        assert(q <= pow2(p as nat));
        assert(t * half_range < inf) by (nonlinear_arith)
            requires
                t < top,
                top * half_range == inf,
                half_range > 0,
        ;
    }
    let scale: u64 = if p == 24 { 0x80_0000 } else { 0x10_0000_0000_0000 };
    proof {
        assert(t as u64 * scale < inf);
    }
    let b: u64 = t as u64 * scale + q as u64;
    if b < inf {
        b
    } else {
        inf
    }
}

proof fn lemma_quotient_bound(m: nat, s: nat, len: nat, p: nat)
    requires
        m < pow2(len),
        len <= s + p,
        p >= 1,
    ensures
        m / pow2(s) < pow2(p),
{
    vstd::arithmetic::power2::lemma_pow2_pos(s);
    vstd::arithmetic::power2::lemma_pow2_adds(s, p);
    if len < s + p {
        vstd::arithmetic::power2::lemma_pow2_strictly_increases(len, s + p);
    }
    vstd::arithmetic::div_mod::lemma_fundamental_div_mod(m as int, pow2(s) as int);
    let q = m / pow2(s);
    assert(q < pow2(p)) by (nonlinear_arith)
        requires
            m == pow2(s) * q + m % pow2(s),
            m < pow2(s) * pow2(p),
            0 <= m % pow2(s),
            pow2(s) > 0,
    ;
}

} // verus!
