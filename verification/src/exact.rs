//! What rounding keeps: the order of magnitudes, and magnitudes that a format holds.

use vstd::prelude::*;
use vstd::arithmetic::div_mod::{lemma_div_is_ordered, lemma_fundamental_div_mod, lemma_fundamental_div_mod_converse};
use vstd::arithmetic::power2::{lemma_pow2_adds, lemma_pow2_pos, lemma_pow2_strictly_increases, pow2};
use crate::magnitude;
use crate::rounding;

verus! {

proof fn lemma_nearest_even_grows(a: nat, b: nat, d: nat)
    requires
        a <= b,
        d > 0,
    ensures
        rounding::nearest_even(a, d) <= rounding::nearest_even(b, d),
{
    lemma_div_is_ordered(a as int, b as int, d as int);
    lemma_fundamental_div_mod(a as int, d as int);
    lemma_fundamental_div_mod(b as int, d as int);
    if a / d == b / d {
        assert(d * (a / d) == d * (b / d));
    }
}

/// What the exponent of the last place says of a magnitude.
pub proof fn lemma_last_place_bounds(p: nat, num: nat, den: nat)
    requires
        den > 0,
    ensures
        num < den * pow2(rounding::last_place(p, num, den) + p),
        rounding::last_place(p, num, den) > 0 ==> num >= den * pow2(
            (rounding::last_place(p, num, den) - 1 + p) as nat,
        ),
    decreases (if num >= den { num - den + 1 } else { 0 }),
{
    let t = rounding::last_place(p, num, den);
    if num >= den * pow2(p) {
        lemma_pow2_pos(p);
        assert(den * pow2(p) >= den) by (nonlinear_arith)
            requires
                pow2(p) >= 1,
        ;
        lemma_last_place_bounds(p, num, 2 * den);
        let s = rounding::last_place(p, num, 2 * den);
        lemma_double(den, s + p);
        if s > 0 {
            lemma_double(den, (s - 1 + p) as nat);
        }
    }
}

proof fn lemma_double(den: nat, n: nat)
    ensures
        (2 * den) * pow2(n) == den * pow2(n + 1),
{
    lemma_pow2_adds(n, 1);
    vstd::arithmetic::power2::lemma2_to64();
    assert((2 * den) * pow2(n) == den * (pow2(n) * 2)) by (nonlinear_arith);
}

proof fn lemma_pow2_grows(a: nat, b: nat)
    requires
        a <= b,
    ensures
        0 < pow2(a) <= pow2(b),
{
    lemma_pow2_pos(a);
    if a < b {
        lemma_pow2_strictly_increases(a, b);
    }
}

proof fn lemma_last_place_grows(p: nat, a: nat, b: nat, den: nat)
    requires
        den > 0,
        a <= b,
    ensures
        rounding::last_place(p, a, den) <= rounding::last_place(p, b, den),
{
    let (ta, tb) = (rounding::last_place(p, a, den), rounding::last_place(p, b, den));
    lemma_last_place_bounds(p, a, den);
    lemma_last_place_bounds(p, b, den);
    if ta > tb {
        lemma_pow2_grows(tb + p, (ta - 1 + p) as nat);
        assert(den * pow2(tb + p) <= den * pow2((ta - 1 + p) as nat)) by (nonlinear_arith)
            requires
                pow2(tb + p) <= pow2((ta - 1 + p) as nat),
        ;
    }
}

/// The significand of a rounded magnitude: at most `2^p`, and where the last place is above the
/// least at least `2^(p-1)`.
proof fn lemma_significand(p: nat, num: nat, den: nat)
    requires
        den > 0,
        p >= 1,
    ensures
        ({
            let t = rounding::last_place(p, num, den);
            let q = rounding::nearest_even(num, den * pow2(t));
            &&& q <= 2 * pow2((p - 1) as nat)
            &&& t > 0 ==> q >= pow2((p - 1) as nat)
        }),
{
    let t = rounding::last_place(p, num, den);
    let h = pow2((p - 1) as nat);
    let s = pow2(t);
    let d = den * s;
    lemma_last_place_bounds(p, num, den);
    lemma_pow2_pos(t);
    assert(d > 0) by (nonlinear_arith)
        requires
            d == den * s,
            den > 0,
            s > 0,
    ;
    lemma_pow2_adds((p - 1) as nat, 1);
    vstd::arithmetic::power2::lemma2_to64();
    lemma_pow2_adds(t, p);
    assert(den * (s * (2 * h)) == (2 * h) * d) by (nonlinear_arith)
        requires
            d == den * s,
    ;
    assert(num < (2 * h) * d);
    lemma_fundamental_div_mod(num as int, d as int);
    let q = num / d;
    assert(q < 2 * h) by (nonlinear_arith)
        requires
            num == d * q + num % d,
            num % d >= 0,
            num < (2 * h) * d,
            d > 0,
    ;
    if t > 0 {
        lemma_pow2_adds(t, (p - 1) as nat);
        assert(pow2((t - 1 + p) as nat) == s * h);
        assert(den * (s * h) == h * d) by (nonlinear_arith)
            requires
                d == den * s,
        ;
        assert(q >= h) by (nonlinear_arith)
            requires
                num == d * q + num % d,
                num % d < d,
                num >= h * d,
                d > 0,
        ;
    }
}

/// A larger magnitude does not round to a smaller one.
pub proof fn lemma_round_grows(p: nat, inf: nat, a: nat, b: nat, den: nat)
    requires
        p >= 1,
        den > 0,
        a <= b,
    ensures
        rounding::round(p, inf, a, den) <= rounding::round(p, inf, b, den),
{
    let (ta, tb) = (rounding::last_place(p, a, den), rounding::last_place(p, b, den));
    let h = pow2((p - 1) as nat);
    lemma_last_place_grows(p, a, b, den);
    lemma_significand(p, a, den);
    lemma_significand(p, b, den);
    lemma_pow2_pos(ta);
    let qa = rounding::nearest_even(a, den * pow2(ta));
    let qb = rounding::nearest_even(b, den * pow2(tb));
    if ta == tb {
        assert(den * pow2(ta) > 0) by (nonlinear_arith)
            requires
                den > 0,
                pow2(ta) > 0,
        ;
        lemma_nearest_even_grows(a, b, den * pow2(ta));
    } else {
        assert(ta * h + qa <= tb * h + qb) by (nonlinear_arith)
            requires
                qa <= 2 * h,
                qb >= h,
                tb >= ta + 1,
                h >= 0,
        ;
    }
}

proof fn lemma_last_place_scale(p: nat, num: nat, den: nat, s: nat)
    requires
        den > 0,
        s > 0,
    ensures
        rounding::last_place(p, num * s, den * s) == rounding::last_place(p, num, den),
    decreases (if num >= den { num - den + 1 } else { 0 }),
{
    let h = pow2(p);
    lemma_pow2_pos(p);
    assert((num < den * h) == (num * s < (den * s) * h)) by (nonlinear_arith)
        requires
            s > 0,
    ;
    assert(den * s > 0) by (nonlinear_arith)
        requires
            den > 0,
            s > 0,
    ;
    if num >= den * h {
        assert(den * h >= den) by (nonlinear_arith)
            requires
                h >= 1,
        ;
        lemma_last_place_scale(p, num, 2 * den, s);
        assert((2 * den) * s == 2 * (den * s)) by (nonlinear_arith);
    }
}

/// Rounding does not depend on the terms a fraction is written in.
pub proof fn lemma_round_scale(p: nat, inf: nat, num: nat, den: nat, s: nat)
    requires
        den > 0,
        s > 0,
    ensures
        rounding::round(p, inf, num * s, den * s) == rounding::round(p, inf, num, den),
{
    lemma_last_place_scale(p, num, den, s);
    let t = rounding::last_place(p, num, den);
    let w = pow2(t);
    lemma_pow2_pos(t);
    assert((den * s) * w == (den * w) * s && den * w > 0) by (nonlinear_arith)
        requires
            den > 0,
            w > 0,
    ;
    rounding::lemma_nearest_even_scale(num, den * w, s);
}

/// A magnitude of at most `p` bits, times a power of two, rounds to itself.
pub proof fn lemma_round_keeps(p: nat, inf: nat, m: nat, k: nat)
    requires
        p >= 1,
        m < pow2(p),
        rounding::round(p, inf, m * pow2(k), 1) < inf,
    ensures
        magnitude::units(p, rounding::round(p, inf, m * pow2(k), 1)) == m * pow2(k),
{
    let h = pow2((p - 1) as nat);
    let num = m * pow2(k);
    let t = rounding::last_place(p, num, 1);
    lemma_pow2_pos((p - 1) as nat);
    lemma_pow2_pos(k);
    lemma_pow2_pos(t);
    lemma_last_place_bounds(p, num, 1);
    if t > k {
        lemma_pow2_adds(k, p);
        lemma_pow2_grows(k + p, (t - 1 + p) as nat);
        assert(m * pow2(k) < pow2(k) * pow2(p)) by (nonlinear_arith)
            requires
                m < pow2(p),
                pow2(k) > 0,
        ;
    }
    assert(t <= k);
    let n = (k - t) as nat;
    let q = m * pow2(n);
    lemma_pow2_adds(n, t);
    assert(num == q * pow2(t)) by (nonlinear_arith)
        requires
            num == m * (pow2(n) * pow2(t)),
            q == m * pow2(n),
    ;
    assert(1 * pow2(t) == pow2(t));
    rounding::lemma_nearest_even_is(num, pow2(t), q, 0);
    lemma_significand(p, num, 1);
    lemma_pow2_adds((p - 1) as nat, 1);
    vstd::arithmetic::power2::lemma2_to64();
    lemma_pow2_adds(t, p);
    assert(q < 2 * h) by (nonlinear_arith)
        requires
            q * pow2(t) < pow2(t) * (h * 2),
            pow2(t) > 0,
    ;
    let b = t * h + q;
    assert(rounding::round(p, inf, num, 1) == b);
    if q < h {
        assert(t == 0);
        assert(b == q) by (nonlinear_arith)
            requires
                b == t * h + q,
                t == 0,
        ;
        assert(q * pow2(0) == q) by (nonlinear_arith)
            requires
                pow2(0) == 1,
        ;
    } else {
        let r = (q - h) as nat;
        assert(b == (t + 1) * h + r) by (nonlinear_arith)
            requires
                b == t * h + q,
                r == q - h,
        ;
        lemma_fundamental_div_mod_converse(b as int, h as int, (t + 1) as int, r as int);
        assert(b >= h) by (nonlinear_arith)
            requires
                b == (t + 1) * h + r,
                r >= 0,
        ;
    }
}

/// What a format holds rounds to itself.
pub proof fn lemma_round_of_units(p: nat, inf: nat, b: nat)
    requires
        p >= 1,
        b < inf,
    ensures
        rounding::round(p, inf, magnitude::units(p, b), 1) == b,
{
    let h = pow2((p - 1) as nat);
    lemma_pow2_pos((p - 1) as nat);
    lemma_pow2_adds((p - 1) as nat, 1);
    vstd::arithmetic::power2::lemma2_to64();
    if b < h {
        assert(b < 1 * pow2(p));
        assert(rounding::last_place(p, b, 1) == 0);
        assert(1 * pow2(0) == 1);
        rounding::lemma_nearest_even_is(b, 1, b, 0);
        assert(0 * h == 0);
    } else {
        lemma_fundamental_div_mod(b as int, h as int);
        let r = b % h;
        let m = h + r;
        assert(b / h >= 1) by (nonlinear_arith)
            requires
                b == h * (b / h) + r,
                r < h,
                b >= h,
        ;
        let t = (b / h - 1) as nat;
        let num = m * pow2(t);
        lemma_pow2_pos(t);
        lemma_pow2_adds(t, p);
        lemma_pow2_adds(t, (p - 1) as nat);
        assert(num < pow2(t) * (h * 2)) by (nonlinear_arith)
            requires
                num == m * pow2(t),
                m < 2 * h,
                pow2(t) > 0,
        ;
        assert(num >= pow2(t) * h) by (nonlinear_arith)
            requires
                num == m * pow2(t),
                m >= h,
                pow2(t) > 0,
        ;
        assert(1 * pow2(t + p) == pow2(t + p));
        if t > 0 {
            assert(1 * pow2((t - 1 + p) as nat) == pow2((t - 1 + p) as nat));
            assert((t - 1 + p) as nat == t + (p - 1) as nat);
        }
        rounding::lemma_last_place(p, num, 1, t);
        assert(1 * pow2(t) == pow2(t));
        rounding::lemma_nearest_even_is(num, pow2(t), m, 0);
        assert(t * h + m == b) by (nonlinear_arith)
            requires
                b == h * (t + 1) + r,
                m == h + r,
        ;
    }
}

/// What is at most a number the format holds rounds to at most that number, and what is at least it
/// to at least it.
pub proof fn lemma_round_beside(p: nat, inf: nat, num: nat, den: nat, b: nat)
    requires
        p >= 1,
        den > 0,
        b < inf,
    ensures
        num <= magnitude::units(p, b) * den ==> rounding::round(p, inf, num, den) <= b,
        num >= magnitude::units(p, b) * den ==> rounding::round(p, inf, num, den) >= b,
{
    let u = magnitude::units(p, b);
    lemma_round_of_units(p, inf, b);
    lemma_round_scale(p, inf, u, 1, den);
    assert(1 * den == den);
    if num <= u * den {
        lemma_round_grows(p, inf, num, u * den, den);
    }
    if num >= u * den {
        lemma_round_grows(p, inf, u * den, num, den);
    }
}

/// What a rounded magnitude stands for: its significand at its last place.
pub proof fn lemma_round_is(p: nat, inf: nat, num: nat, den: nat)
    requires
        p >= 1,
        den > 0,
        rounding::round(p, inf, num, den) < inf,
    ensures
        ({
            let t = rounding::last_place(p, num, den);
            magnitude::units(p, rounding::round(p, inf, num, den)) == rounding::nearest_even(num, den * pow2(t)) * pow2(t)
        }),
{
    let h = pow2((p - 1) as nat);
    let t = rounding::last_place(p, num, den);
    let q = rounding::nearest_even(num, den * pow2(t));
    lemma_significand(p, num, den);
    lemma_pow2_pos((p - 1) as nat);
    vstd::arithmetic::power2::lemma2_to64();
    let b = t * h + q;
    if q < h {
        assert(b == q && q * pow2(0) == q) by (nonlinear_arith)
            requires
                b == t * h + q,
                t == 0,
                pow2(0) == 1,
        ;
    } else {
        let (k, r) = if q < 2 * h {
            (t + 1, (q - h) as nat)
        } else {
            (t + 2, 0nat)
        };
        assert(b == k * h + r && b >= h) by (nonlinear_arith)
            requires
                b == t * h + q,
                q >= h,
                (k == t + 1 && r == q - h) || (k == t + 2 && r == 0 && q == 2 * h),
        ;
        lemma_fundamental_div_mod_converse(b as int, h as int, k as int, r as int);
        lemma_pow2_adds(t, 1);
        assert(h * (pow2(t) * 2) == (2 * h) * pow2(t)) by (nonlinear_arith);
    }
}

/// How far rounding moves a magnitude: by half a unit, or by one part in `2^p`.
pub proof fn lemma_round_error(p: nat, inf: nat, num: nat, den: nat)
    requires
        p >= 1,
        den > 0,
        rounding::round(p, inf, num, den) < inf,
    ensures
        ({
            let d = magnitude::units(p, rounding::round(p, inf, num, den)) * den - num;
            &&& (2 * d <= den && -2 * d <= den) || (d * pow2(p) <= num && -d * pow2(p) <= num)
            &&& den == 1 ==> d * pow2(p) <= num && -d * pow2(p) <= num
        }),
{
    lemma_round_is(p, inf, num, den);
    lemma_last_place_bounds(p, num, den);
    let t = rounding::last_place(p, num, den);
    let w = pow2(t);
    let place = den * w;
    let q = rounding::nearest_even(num, place);
    lemma_pow2_pos(t);
    assert(place > 0) by (nonlinear_arith)
        requires
            place == den * w,
            den > 0,
            w > 0,
    ;
    lemma_fundamental_div_mod(num as int, place as int);
    let d = (q * w) * den - num;
    assert((q * w) * den == q * place) by (nonlinear_arith)
        requires
            place == den * w,
    ;
    assert(place * (num / place) == (num / place) * place && (num / place + 1) * place == (num / place) * place
        + place) by (nonlinear_arith);
    assert(2 * d <= place && -2 * d <= place);
    vstd::arithmetic::power2::lemma2_to64();
    if t == 0 {
        assert(place == den) by (nonlinear_arith)
            requires
                place == den * w,
                w == 1,
        ;
        if den == 1 {
            assert(d == 0);
            assert(0 * pow2(p) == 0 && -0 * pow2(p) == 0);
        }
    } else {
        let below = pow2((t - 1 + p) as nat);
        lemma_pow2_adds(t, p);
        lemma_pow2_adds(1, (t - 1 + p) as nat);
        assert(place * pow2(p) == 2 * (den * below)) by (nonlinear_arith)
            requires
                place == den * w,
                w * pow2(p) == 2 * below,
        ;
        assert(2 * (d * pow2(p)) <= place * pow2(p) && 2 * (-d * pow2(p)) <= place * pow2(p)) by (nonlinear_arith)
            requires
                2 * d <= place,
                -2 * d <= place,
        ;
    }
}

} // verus!
