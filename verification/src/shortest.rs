//! The shortest decimal that reads back as a given single precision number.

use vstd::prelude::*;
use vstd::arithmetic::power2::pow2;
use vstd::string::StringExecFns;
use crate::decimal;
use crate::exact;
use crate::float32::F32;
use crate::magnitude;
use crate::natural::Natural;
use crate::number;
use crate::rounding;
use crate::text;

verus! {

/// `u` units of `2^-149` are at least `10^x`.
pub open spec fn at_least(u: nat, x: int) -> bool {
    if x >= 0 {
        u >= pow2(149) * decimal::pow10(x as nat)
    } else {
        u * decimal::pow10((-x) as nat) >= pow2(149)
    }
}

/// The power of ten of the leading digit.
pub open spec fn decade(u: nat) -> int {
    choose|x: int| #[trigger] at_least(u, x) && !at_least(u, x + 1)
}

/// `u` units divided by `10^decade` are `above / below`.
pub open spec fn above(u: nat) -> nat {
    if decade(u) >= 0 {
        u
    } else {
        u * decimal::pow10((-decade(u)) as nat)
    }
}

pub open spec fn below(u: nat) -> nat {
    if decade(u) >= 0 {
        pow2(149) * decimal::pow10(decade(u) as nat)
    } else {
        pow2(149)
    }
}

/// The first `k` digits of `u` units, cut off.
pub open spec fn leading(u: nat, k: nat) -> nat {
    (above(u) * decimal::pow10((k - 1) as nat)) / below(u)
}

/// The digits cut off behind the first `k` are less than half a place.
pub open spec fn closer_below(u: nat, k: nat) -> bool {
    2 * ((above(u) * decimal::pow10((k - 1) as nat)) % below(u)) < below(u)
}

/// `c * 10^x` reads as the pattern `b`.
pub open spec fn reads_as(b: nat, c: nat, x: int) -> bool {
    decimal::from_decimal(24, 149, 0x7f80_0000, c, x) == b
}

/// The number of `k` digits that reads back as `b`, the closer one of two.
pub open spec fn candidate(b: nat, k: nat) -> Option<nat> {
    let u = magnitude::units(24, b);
    let c = leading(u, k);
    let x = decade(u) - k + 1;
    if reads_as(b, c, x) && (!reads_as(b, c + 1, x) || closer_below(u, k)) {
        Some(c)
    } else if reads_as(b, c + 1, x) {
        Some(c + 1)
    } else {
        None
    }
}

/// The least number of digits, from `k` up, of which some number reads back.
pub open spec fn fewest_digits(b: nat, k: nat) -> nat
    decreases 9 - k,
{
    if k >= 9 || candidate(b, k) is Some {
        k
    } else {
        fewest_digits(b, k + 1)
    }
}

/// `c * 10^x` without trailing zeros in `c`.
pub open spec fn stripped(c: nat, x: int) -> (nat, int)
    decreases c,
{
    if c > 0 && c % 10 == 0 {
        stripped(c / 10, x + 1)
    } else {
        (c, x)
    }
}

/// The digits and the power of ten of the shortest decimal of a positive finite pattern.
pub open spec fn shortest(b: nat) -> (nat, int) {
    let k = fewest_digits(b, 1);
    stripped(candidate(b, k)->0, decade(magnitude::units(24, b)) - k + 1)
}

pub open spec fn zeros(n: nat) -> Seq<char> {
    Seq::new(n, |i: int| '0')
}

/// Digits times `10^x`, written without an exponent.
pub open spec fn positional(d: Seq<char>, x: int) -> Seq<char> {
    let n = d.len() as int;
    if x >= 0 {
        d + zeros(x as nat)
    } else if -x < n {
        d.take(n + x) + seq!['.'] + d.skip(n + x)
    } else {
        seq!['0', '.'] + zeros((-x - n) as nat) + d
    }
}

/// A number's text: `NaN`, `inf`, or its shortest decimal without an exponent, after a `-` where
/// the sign is set.
pub open spec fn display(v: F32) -> Seq<char> {
    if v.nan() {
        seq!['N', 'a', 'N']
    } else {
        let body = if v.infinite() {
            seq!['i', 'n', 'f']
        } else if v.zero() {
            seq!['0']
        } else {
            let (c, x) = shortest(v.magnitude());
            positional(text::decimal(c), x)
        };
        if v.negative() {
            seq!['-'] + body
        } else {
            body
        }
    }
}

proof fn lemma_near(a: nat, d: nat, m: nat)
    requires
        d > 0,
        m > 0,
        8 * a < 8 * (m * d) + d,
        8 * (m * d) < 8 * a + d,
    ensures
        rounding::nearest_even(a, d) == m,
{
    if a >= m * d {
        rounding::lemma_nearest_even_is(a, d, m, (a - m * d) as nat);
    } else {
        let q = (m - 1) as nat;
        assert(m * d == q * d + d) by (nonlinear_arith)
            requires
                q + 1 == m,
        ;
        rounding::lemma_nearest_even_is(a, d, q, (a - q * d) as nat);
    }
}

/// What lies within a `2^27`th of a magnitude rounds to it.
proof fn lemma_rounds_back(b: nat, num: nat, den: nat)
    requires
        0 < b < 0x7f80_0000,
        den > 0,
        ({
            let w = magnitude::units(24, b) * den;
            &&& 0x800_0000 * num < 0x800_0000 * w + w
            &&& 0x800_0000 * w < 0x800_0000 * num + w
        }),
    ensures
        rounding::round(24, 0x7f80_0000, num, den) == b,
{
    let h = pow2(23);
    vstd::arithmetic::power2::lemma2_to64();
    vstd::arithmetic::power2::lemma2_to64_rest();
    let v = magnitude::units(24, b);
    let w = v * den;
    if b < h {
        assert(0x80_0000 * den >= w) by (nonlinear_arith)
            requires
                w == v * den,
                v <= 0x80_0000,
        ;
        rounding::lemma_last_place(24, num, den, 0);
        assert(den * pow2(0) == den) by (nonlinear_arith)
            requires
                pow2(0) == 1,
        ;
        lemma_near(num, den, v);
    } else {
        let r = b % h;
        let m = h + r;
        let e = (b / h - 1) as nat;
        let s = pow2(e);
        vstd::arithmetic::power2::lemma_pow2_pos(e);
        vstd::arithmetic::div_mod::lemma_fundamental_div_mod(b as int, h as int);
        let ds = den * s;
        assert(w == m * ds) by (nonlinear_arith)
            requires
                w == (m * s) * den,
                ds == den * s,
        ;
        assert(ds > 0) by (nonlinear_arith)
            requires
                ds == den * s,
                den > 0,
                s > 0,
        ;
        assert(m * ds < 0x100_0000 * ds && m * ds >= 0x80_0000 * ds) by (nonlinear_arith)
            requires
                0x80_0000 <= m < 0x100_0000,
                ds > 0,
        ;
        assert(m > h ==> m * ds >= 0x80_0000 * ds + ds) by (nonlinear_arith)
            requires
                m > h ==> m >= 0x80_0001,
                ds > 0,
        ;
        assert(m * ds <= 0xff_ffff * ds) by (nonlinear_arith)
            requires
                m <= 0xff_ffff,
                ds > 0,
        ;
        vstd::arithmetic::power2::lemma_pow2_adds(e, 24);
        assert(den * pow2(e + 24) == 0x100_0000 * ds) by (nonlinear_arith)
            requires
                pow2(e + 24) == s * 0x100_0000,
                ds == den * s,
        ;
        if num >= w || m > h {
            if e > 0 {
                vstd::arithmetic::power2::lemma_pow2_adds(e, 23);
                assert((e - 1 + 24) as nat == e + 23);
                assert(den * pow2(e + 23) == 0x80_0000 * ds) by (nonlinear_arith)
                    requires
                        pow2(e + 23) == s * 0x80_0000,
                        ds == den * s,
                ;
            }
            rounding::lemma_last_place(24, num, den, e);
            lemma_near(num, ds, m);
            assert(e * h + m == b) by (nonlinear_arith)
                requires
                    b == h * (e + 1) + r,
                    m == h + r,
            ;
        } else if e == 0 {
            rounding::lemma_last_place(24, num, den, 0);
            lemma_near(num, ds, m);
            assert(b == h) by (nonlinear_arith)
                requires
                    b == h * (e + 1) + r,
                    e == 0,
                    r == 0,
            ;
        } else {
            let f = (e - 1) as nat;
            let sf = pow2(f);
            let df = den * sf;
            vstd::arithmetic::power2::lemma_pow2_unfold(e);
            assert(ds == 2 * df) by (nonlinear_arith)
                requires
                    ds == den * s,
                    df == den * sf,
                    s == 2 * sf,
            ;
            vstd::arithmetic::power2::lemma_pow2_adds(f, 24);
            assert(den * pow2(f + 24) == 0x100_0000 * df) by (nonlinear_arith)
                requires
                    pow2(f + 24) == sf * 0x100_0000,
                    df == den * sf,
            ;
            if f > 0 {
                vstd::arithmetic::power2::lemma_pow2_adds(f, 23);
                assert((f - 1 + 24) as nat == f + 23);
                assert(den * pow2(f + 23) == 0x80_0000 * df) by (nonlinear_arith)
                    requires
                        pow2(f + 23) == sf * 0x80_0000,
                        df == den * sf,
                ;
            }
            assert(w == 0x100_0000 * df);
            rounding::lemma_last_place(24, num, den, f);
            lemma_near(num, df, 0x100_0000);
            assert(f * h + 0x100_0000 == b) by (nonlinear_arith)
                requires
                    b == h * (e + 1) + r,
                    r == 0,
                    h == 0x80_0000,
                    f + 1 == e,
            ;
        }
    }
}

proof fn lemma_at_least_down(u: nat, x: int)
    requires
        at_least(u, x + 1),
    ensures
        at_least(u, x),
{
    let k = pow2(149);
    if x >= 0 {
        let t = decimal::pow10(x as nat);
        assert(k * decimal::pow10((x + 1) as nat) >= k * t) by (nonlinear_arith)
            requires
                decimal::pow10((x + 1) as nat) == 10 * t,
                t >= 0,
                k >= 0,
        ;
    } else if x == -1 {
        assert(decimal::pow10(1) == 10) by {
            reveal_with_fuel(decimal::pow10, 2);
        }
        assert(k * decimal::pow10(0) == k) by (nonlinear_arith)
            requires
                decimal::pow10(0) == 1,
        ;
        assert(u * decimal::pow10(1) == 10 * u) by (nonlinear_arith)
            requires
                decimal::pow10(1) == 10,
        ;
    } else {
        let t = decimal::pow10((-x - 1) as nat);
        assert(u * decimal::pow10((-x) as nat) == 10 * (u * t)) by (nonlinear_arith)
            requires
                decimal::pow10((-x) as nat) == 10 * t,
        ;
    }
}

proof fn lemma_at_least_below(u: nat, x: int, y: int)
    requires
        at_least(u, x),
        y <= x,
    ensures
        at_least(u, y),
    decreases x - y,
{
    if y < x {
        lemma_at_least_down(u, x - 1);
        lemma_at_least_below(u, x - 1, y);
    }
}

proof fn lemma_decade_is(u: nat, x: int)
    requires
        at_least(u, x),
        !at_least(u, x + 1),
    ensures
        decade(u) == x,
{
    let d = decade(u);
    if d < x {
        lemma_at_least_below(u, x, d + 1);
    } else if d > x {
        lemma_at_least_below(u, d, x + 1);
    }
}

/// Sub-proof of the range of decades.
proof fn lemma_decade_range(b: nat)
    requires
        0 < b < 0x7f80_0000,
    ensures
        at_least(magnitude::units(24, b), -50),
        !at_least(magnitude::units(24, b), 43),
{
    let u = magnitude::units(24, b);
    let k = pow2(149);
    decimal::lemma_pow10(50);
    decimal::lemma_pow10(43);
    magnitude::lemma_units_grow(24, 0, b);
    magnitude::lemma_units_grow(24, b, 0x7f80_0000);
    vstd::arithmetic::power2::lemma2_to64();
    vstd::arithmetic::power2::lemma2_to64_rest();
    vstd::arithmetic::power2::lemma_pow2_strictly_increases(149, 150);
    assert(u >= 1) by {
        assert(magnitude::units(24, 0) == 0);
    }
    assert(u * decimal::pow10(50) >= decimal::pow10(50)) by (nonlinear_arith)
        requires
            u >= 1,
    ;
    assert(0x7f80_0000nat / 0x80_0000 == 255 && 0x7f80_0000nat % 0x80_0000 == 0);
    vstd::arithmetic::power2::lemma_pow2_adds(23, 254);
    vstd::arithmetic::power2::lemma_pow2_adds(149, 129);
    vstd::arithmetic::power2::lemma_pow2_strictly_increases(277, 278);
    assert(k * decimal::pow10(43) >= k * pow2(129)) by (nonlinear_arith)
        requires
            decimal::pow10(43) >= pow2(129),
            k >= 0,
    ;
}

pub(crate) proof fn lemma_decade(b: nat)
    requires
        0 < b < 0x7f80_0000,
    ensures
        ({
            let u = magnitude::units(24, b);
            &&& at_least(u, decade(u))
            &&& !at_least(u, decade(u) + 1)
            &&& -50 <= decade(u) < 43
        }),
{
    lemma_decade_range(b);
    let x = lemma_decade_between(magnitude::units(24, b), -50, 43);
    lemma_decade_is(magnitude::units(24, b), x);
}

proof fn lemma_decade_between(u: nat, lo: int, hi: int) -> (x: int)
    requires
        at_least(u, lo),
        !at_least(u, hi),
        lo < hi,
    ensures
        lo <= x < hi,
        at_least(u, x),
        !at_least(u, x + 1),
    decreases hi - lo,
{
    if at_least(u, lo + 1) {
        if lo + 1 == hi {
            lo
        } else {
            lemma_decade_between(u, lo + 1, hi)
        }
    } else {
        lo
    }
}

proof fn lemma_leading_range(b: nat)
    requires
        0 < b < 0x7f80_0000,
    ensures
        ({
            let u = magnitude::units(24, b);
            &&& 0 < below(u) <= above(u) < 10 * below(u)
        }),
{
    let u = magnitude::units(24, b);
    let x = decade(u);
    let k = pow2(149);
    lemma_decade(b);
    vstd::arithmetic::power2::lemma_pow2_pos(149);
    if x >= 0 {
        let t = decimal::pow10(x as nat);
        decimal::lemma_pow10(x as nat);
        assert(k * t > 0) by (nonlinear_arith)
            requires
                k > 0,
                t > 0,
        ;
        assert(k * decimal::pow10((x + 1) as nat) == 10 * (k * t)) by (nonlinear_arith)
            requires
                decimal::pow10((x + 1) as nat) == 10 * t,
        ;
    } else if x == -1 {
        assert(decimal::pow10(1) == 10) by {
            reveal_with_fuel(decimal::pow10, 2);
        }
        assert(k * decimal::pow10(0) == k) by (nonlinear_arith)
            requires
                decimal::pow10(0) == 1,
        ;
        assert(u * decimal::pow10(1) == 10 * u) by (nonlinear_arith)
            requires
                decimal::pow10(1) == 10,
        ;
    } else {
        let t = decimal::pow10((-x - 1) as nat);
        assert(u * decimal::pow10((-x) as nat) == 10 * (u * t)) by (nonlinear_arith)
            requires
                decimal::pow10((-x) as nat) == 10 * t,
        ;
    }
}

proof fn lemma_nine_digits(b: nat)
    requires
        0 < b < 0x7f80_0000,
    ensures
        candidate(b, 9) is Some,
{
    let u = magnitude::units(24, b);
    let e = decade(u);
    let k = pow2(149);
    let n8: nat = 100_000_000;
    let up = above(u);
    let down = below(u);
    assert(decimal::pow10(8) == n8) by {
        reveal_with_fuel(decimal::pow10, 9);
    }
    lemma_leading_range(b);
    lemma_decade(b);
    vstd::arithmetic::div_mod::lemma_fundamental_div_mod((up * n8) as int, down as int);
    let q = leading(u, 9);
    let r = (up * n8) % down;
    let c = if closer_below(u, 9) {
        q
    } else {
        q + 1
    };
    assert(down * q == q * down) by (nonlinear_arith);
    assert((q + 1) * down == q * down + down) by (nonlinear_arith);
    let cb = c * down;
    assert(2 * cb <= 2 * (up * n8) + down && 2 * (up * n8) <= 2 * cb + down);
    let x = e - 8;
    assert(e - 9nat + 1 == x);
    if e >= 8 {
        let t = decimal::pow10(x as nat);
        decimal::lemma_pow10_adds(x as nat, 8);
        let num = c * t * k;
        assert(cb == num * n8) by (nonlinear_arith)
            requires
                cb == c * down,
                down == k * (t * n8),
                num == c * t * k,
        ;
        lemma_rounds_back(b, num, 1);
    } else if e < 0 {
        let t = decimal::pow10((-e) as nat);
        decimal::lemma_pow10_adds((-e) as nat, 8);
        let den = decimal::pow10((-x) as nat);
        assert(u * den == up * n8) by (nonlinear_arith)
            requires
                den == t * n8,
                up == u * t,
        ;
        decimal::lemma_pow10((-x) as nat);
        lemma_rounds_back(b, c * k, den);
    } else {
        let t = decimal::pow10(e as nat);
        let den = decimal::pow10((-x) as nat);
        decimal::lemma_pow10_adds(e as nat, (-x) as nat);
        decimal::lemma_pow10(e as nat);
        decimal::lemma_pow10((-x) as nat);
        let num = c * k;
        let w = u * den;
        assert(cb == num * t) by (nonlinear_arith)
            requires
                cb == c * down,
                down == k * t,
                num == c * k,
        ;
        assert(up * n8 == w * t) by (nonlinear_arith)
            requires
                up == u,
                w == u * den,
                n8 == t * den,
        ;
        assert(0x800_0000 * num < 0x800_0000 * w + w && 0x800_0000 * w < 0x800_0000 * num + w)
            by (nonlinear_arith)
            requires
                0x800_0000 * (num * t) < 0x800_0000 * (w * t) + w * t,
                0x800_0000 * (w * t) < 0x800_0000 * (num * t) + w * t,
                t > 0,
        ;
        lemma_rounds_back(b, num, den);
    }
    assert(c > 0) by (nonlinear_arith)
        requires
            2 * (up * n8) <= 2 * (c * down) + down,
            down <= up,
            down > 0,
            n8 == 100_000_000,
    ;
    assert(reads_as(b, c, x));
}

proof fn lemma_trailing_zero(c: nat, x: int)
    ensures
        decimal::from_decimal(24, 149, 0x7f80_0000, 10 * c, x) == decimal::from_decimal(
            24,
            149,
            0x7f80_0000,
            c,
            x + 1,
        ),
{
    let k = pow2(149);
    if c > 0 {
        if x >= 0 {
            let t = decimal::pow10(x as nat);
            assert((10 * c) * t * k == c * decimal::pow10((x + 1) as nat) * k) by (nonlinear_arith)
                requires
                    decimal::pow10((x + 1) as nat) == 10 * t,
            ;
        } else {
            let den = decimal::pow10((-x - 1) as nat);
            decimal::lemma_pow10((-x - 1) as nat);
            assert((10 * c) * k == (c * k) * 10) by (nonlinear_arith);
            exact::lemma_round_scale(24, 0x7f80_0000, c * k, den, 10);
            if x == -1 {
                assert(c * decimal::pow10(0) * k == c * k) by (nonlinear_arith)
                    requires
                        decimal::pow10(0) == 1,
                ;
            }
        }
    }
}

proof fn lemma_stripped(c: nat, x: int)
    ensures
        ({
            let (d, y) = stripped(c, x);
            &&& decimal::from_decimal(24, 149, 0x7f80_0000, d, y) == decimal::from_decimal(
                24,
                149,
                0x7f80_0000,
                c,
                x,
            )
            &&& c > 0 ==> d > 0
        }),
    decreases c,
{
    if c > 0 && c % 10 == 0 {
        lemma_stripped(c / 10, x + 1);
        lemma_trailing_zero(c / 10, x);
        assert(10 * (c / 10) == c);
    }
}

proof fn lemma_fewest_digits(b: nat, k: nat)
    requires
        0 < b < 0x7f80_0000,
        1 <= k <= 9,
    ensures
        k <= fewest_digits(b, k) <= 9,
        candidate(b, fewest_digits(b, k)) is Some,
    decreases 9 - k,
{
    lemma_nine_digits(b);
    if k < 9 && candidate(b, k) is None {
        lemma_fewest_digits(b, k + 1);
    }
}

/// The shortest decimal of a number reads back as the number.
pub proof fn lemma_shortest_reads_back(b: nat)
    requires
        0 < b < 0x7f80_0000,
    ensures
        ({
            let (c, x) = shortest(b);
            &&& c > 0
            &&& reads_as(b, c, x)
        }),
{
    lemma_fewest_digits(b, 1);
    let k = fewest_digits(b, 1);
    let c = candidate(b, k)->0;
    let x = decade(magnitude::units(24, b)) - k + 1;
    assert(reads_as(b, c, x));
    lemma_stripped(c, x);
}

proof fn lemma_digits_end_is(s: Seq<char>, i: int, j: int)
    requires
        0 <= i <= j <= s.len(),
        forall|n: int| i <= n < j ==> text::is_digit(#[trigger] s[n]),
        j == s.len() || !text::is_digit(s[j]),
    ensures
        number::digits_end(s, i) == j,
    decreases j - i,
{
    if i < j {
        assert(text::is_digit(s[i]));
        lemma_digits_end_is(s, i + 1, j);
    }
}

proof fn lemma_digits_join(a: Seq<u8>, b: Seq<u8>)
    ensures
        decimal::digits_number(a + b) == decimal::digits_number(a) * decimal::pow10(b.len())
            + decimal::digits_number(b),
    decreases b.len(),
{
    let n = decimal::digits_number(a);
    if b.len() == 0 {
        assert(a + b =~= a);
        assert(n * decimal::pow10(0) == n) by (nonlinear_arith)
            requires
                decimal::pow10(0) == 1,
        ;
    } else {
        lemma_digits_join(a, b.drop_last());
        assert((a + b).drop_last() =~= a + b.drop_last());
        let t = decimal::pow10((b.len() - 1) as nat);
        assert(n * decimal::pow10(b.len()) == 10 * (n * t)) by (nonlinear_arith)
            requires
                decimal::pow10(b.len()) == 10 * t,
        ;
    }
}

proof fn lemma_digits_zero(a: Seq<u8>)
    requires
        forall|i: int| 0 <= i < a.len() ==> #[trigger] a[i] == 0,
    ensures
        decimal::digits_number(a) == 0,
    decreases a.len(),
{
    if a.len() > 0 {
        lemma_digits_zero(a.drop_last());
    }
}

proof fn lemma_decimal(c: nat)
    ensures
        text::decimal(c).len() >= 1,
        forall|i: int| 0 <= i < text::decimal(c).len() ==> text::is_digit(#[trigger] text::decimal(c)[i]),
        decimal::digits_number(number::digit_values(text::decimal(c), 0, text::decimal(c).len() as int)) == c,
    decreases c,
{
    let d = text::decimal(c);
    let v = number::digit_values(d, 0, d.len() as int);
    if c < 10 {
        assert(v.drop_last() =~= Seq::<u8>::empty());
        assert(decimal::digits_number(v.drop_last()) == 0);
        assert(v.last() == c);
    } else {
        lemma_decimal(c / 10);
        let h = text::decimal(c / 10);
        assert(d =~= h.push(text::digit_char(c % 10)));
        assert(v.drop_last() =~= number::digit_values(h, 0, h.len() as int));
        assert(v.last() == c % 10);
    }
}

/// The mantissa and exponent that the positional form of `c * 10^x` is read with.
proof fn lemma_positional(s: Seq<char>, c: nat, x: int, n0: int)
    requires
        c > 0,
        n0 == 0 || n0 == 1,
        s.len() >= n0,
        n0 == 1 ==> s[0] == '-',
        s.skip(n0) == positional(text::decimal(c), x),
    ensures
        number::float_text(s),
        number::float_value(s) == F32::make(
            n0 == 1,
            decimal::from_decimal(24, 149, 0x7f80_0000, c, x),
        ),
{
    let d = text::decimal(c);
    let n = d.len() as int;
    let body = s.skip(n0);
    let all = number::digit_values(d, 0, n);
    lemma_decimal(c);
    assert forall|i: int| 0 <= i < body.len() implies #[trigger] body[i] == s[n0 + i] by {}
    assert(body.len() > 0);
    assert(text::is_digit(body[0])) by {
        assert(text::is_digit(d[0]));
    }
    assert(number::integer_start(s) == n0);
    if x >= 0 {
        assert forall|i: int| n0 <= i < s.len() implies text::is_digit(#[trigger] s[i]) by {
            assert(s[i] == body[i - n0]);
            if i - n0 < n {
                assert(text::is_digit(d[i - n0]));
            }
        }
        lemma_digits_end_is(s, n0, s.len() as int);
        let m = number::mantissa(s);
        let z = number::digit_values(s, n0 + n, s.len() as int);
        assert(m =~= all + z) by {
            assert forall|i: int| 0 <= i < m.len() implies m[i] == (all + z)[i] by {
                if i < n {
                    assert(s[n0 + i] == body[i]);
                }
            }
        }
        assert forall|i: int| 0 <= i < z.len() implies #[trigger] z[i] == 0 by {
            assert(s[n0 + n + i] == body[n + i]);
        }
        lemma_digits_zero(z);
        lemma_digits_join(all, z);
        let t = decimal::pow10(x as nat);
        decimal::lemma_pow10(x as nat);
        assert(c * t > 0) by (nonlinear_arith)
            requires
                c > 0,
                t > 0,
        ;
        assert((c * t) * decimal::pow10(0) == c * t) by (nonlinear_arith)
            requires
                decimal::pow10(0) == 1,
        ;
    } else if -x < n {
        let p = n0 + n + x;
        assert(body[n + x] == '.');
        assert forall|i: int| n0 <= i < s.len() && i != p implies text::is_digit(#[trigger] s[i]) by {
            assert(s[i] == body[i - n0]);
            if i < p {
                assert(text::is_digit(d[i - n0]));
            } else {
                assert(text::is_digit(d[i - n0 - 1]));
            }
        }
        lemma_digits_end_is(s, n0, p);
        lemma_digits_end_is(s, p + 1, s.len() as int);
        assert(number::mantissa(s) =~= all) by {
            assert forall|i: int| 0 <= i < n implies number::mantissa(s)[i] == all[i] by {
                if n0 + i < p {
                    assert(s[n0 + i] == body[i]);
                } else {
                    assert(s[n0 + i + 1] == body[i + 1]);
                }
            }
        }
    } else {
        let p = n0 + 1;
        let z = number::digit_values(s, n0, p) + number::digit_values(s, p + 1, s.len() - n);
        assert(body[1] == '.');
        assert forall|i: int| n0 <= i < s.len() && i != p implies text::is_digit(#[trigger] s[i]) by {
            assert(s[i] == body[i - n0]);
            if i >= s.len() - n {
                assert(text::is_digit(d[i - (s.len() - n)]));
            }
        }
        lemma_digits_end_is(s, n0, p);
        lemma_digits_end_is(s, p + 1, s.len() as int);
        assert(number::mantissa(s) =~= z + all) by {
            assert forall|i: int| 0 <= i < z.len() + n implies number::mantissa(s)[i] == (z + all)[i] by {
                if i >= z.len() {
                    assert(s[n0 + i + 1] == body[i + 1]);
                }
            }
        }
        assert forall|i: int| 0 <= i < z.len() implies #[trigger] z[i] == 0 by {
            if i == 0 {
                assert(s[n0] == body[0]);
            } else {
                assert(s[n0 + i + 1] == body[i + 1]);
            }
        }
        lemma_digits_zero(z);
        lemma_digits_join(z, all);
        assert(0 * decimal::pow10(n as nat) == 0) by (nonlinear_arith);
        assert(decimal::digits_number(number::mantissa(s)) == c);
    }
}

/// A number's text reads back as the number; only a nan loses its sign and payload.
pub proof fn lemma_display_reads_back(v: F32)
    ensures
        !v.nan() ==> number::number(display(v)) == Some(v),
        v.nan() ==> number::number(display(v)) == Some(F32(0x7fc0_0000)),
{
    let s = display(v);
    let n0: int = if !v.nan() && v.negative() {
        1
    } else {
        0
    };
    let body = s.skip(n0);
    reveal_strlit("inf");
    reveal_strlit("infinity");
    reveal_strlit("nan");
    if v.nan() {
        assert(number::digits_end(s, 0) == 0);
        assert(body =~= s);
        assert(text::same_letters(body, "nan"@));
        assert(text::lower(body[0]) != text::lower("inf"@[0]));
    } else if v.infinite() {
        assert(s[n0] == 'i');
        assert(number::digits_end(s, n0) == n0);
        assert(body =~= seq!['i', 'n', 'f']);
        assert(text::same_letters(body, "inf"@));
    } else if v.zero() {
        assert(s[n0] == '0');
        lemma_digits_end_is(s, n0, s.len() as int);
        let m = number::mantissa(s);
        assert(m[0] == 0);
        lemma_digits_zero(m);
    } else {
        let (c, x) = shortest(v.magnitude());
        lemma_shortest_reads_back(v.magnitude());
        assert(body =~= positional(text::decimal(c), x));
        lemma_positional(s, c, x, n0);
    }
}

fn times_power(n: &Natural, base: u32, e: u32, Ghost(p): Ghost<nat>) -> (r: Natural)
    requires
        (base == 2 && p == pow2(e as nat)) || (base == 10 && p == decimal::pow10(e as nat)),
    ensures
        r@ == n@ * p,
{
    let mut r: Natural = n.copy();
    let mut i: u32 = 0;
    proof {
        vstd::arithmetic::power2::lemma2_to64();
    }
    assert(n@ * 1 == n@);
    while i < e
        invariant
            i <= e,
            base == 2 || base == 10,
            base == 2 ==> r@ == n@ * pow2(i as nat),
            base == 10 ==> r@ == n@ * decimal::pow10(i as nat),
        decreases e - i,
    {
        proof {
            vstd::arithmetic::power2::lemma_pow2_unfold((i + 1) as nat);
            assert(n@ * pow2((i + 1) as nat) == (n@ * pow2(i as nat)) * 2) by (nonlinear_arith)
                requires
                    pow2((i + 1) as nat) == 2 * pow2(i as nat),
            ;
            assert(n@ * decimal::pow10((i + 1) as nat) == (n@ * decimal::pow10(i as nat)) * 10) by (nonlinear_arith)
                requires
                    decimal::pow10((i + 1) as nat) == 10 * decimal::pow10(i as nat),
            ;
        }
        r.mul_add(base, 0);
        i = i + 1;
    }
    r
}

/// `u` units against `10^x`, as the two sides of a fraction.
fn sides(u: &Natural, x: i32) -> (r: (Natural, Natural))
    requires
        -100 <= x <= 100,
    ensures
        r.0@ == (if x >= 0 { u@ } else { u@ * decimal::pow10((-x) as nat) }),
        r.1@ == (if x >= 0 { pow2(149) * decimal::pow10(x as nat) } else { pow2(149) }),
        r.0@ >= r.1@ <==> at_least(u@, x as int),
{
    let one: Natural = Natural::from_u64(1);
    let unit: Natural = times_power(&one, 2, 149, Ghost(pow2(149)));
    assert(1 * pow2(149) == pow2(149));
    if x >= 0 {
        let below: Natural = times_power(&unit, 10, x as u32, Ghost(decimal::pow10(x as nat)));
        (u.copy(), below)
    } else {
        let above: Natural = times_power(u, 10, (-x) as u32, Ghost(decimal::pow10((-x) as nat)));
        (above, unit)
    }
}

pub(crate) fn digits_of(n: u64) -> (r: Vec<u8>)
    ensures
        decimal::all_digits(r@),
        decimal::digits_number(r@) == n,
    decreases n,
{
    if n < 10 {
        let mut v: Vec<u8> = Vec::new();
        v.push(n as u8);
        assert(v@.drop_last() =~= Seq::<u8>::empty());
        assert(decimal::digits_number(v@.drop_last()) == 0);
        v
    } else {
        let mut v: Vec<u8> = digits_of(n / 10);
        let ghost before = v@;
        v.push((n % 10) as u8);
        assert(v@.drop_last() =~= before);
        v
    }
}

fn reads_back(b: u64, c: u64, x: i32) -> (r: bool)
    ensures
        r == reads_as(b as nat, c as nat, x as int),
{
    let digits: Vec<u8> = digits_of(c);
    decimal::decimal_bits(24, 149, 0x7f80_0000, &digits, x as i128) == b
}

/// The quotient below ten and the remainder.
fn next_digit(a: Natural, b: &Natural) -> (r: (u64, Natural))
    requires
        a@ < 10 * b@,
        b@ > 0,
    ensures
        a@ == r.0 * b@ + r.1@,
        r.1@ < b@,
        r.0 < 10,
{
    let mut q: u64 = 0;
    let mut rest: Natural = a.copy();
    assert(0 * b@ == 0);
    loop
        invariant
            a@ < 10 * b@,
            b@ > 0,
            q < 10,
            a@ == q * b@ + rest@,
        decreases 10 - q,
    {
        match rest.checked_sub(b) {
            Some(d) => {
                proof {
                    assert((q + 1) * b@ == q * b@ + b@) by (nonlinear_arith);
                    assert(q < 9) by (nonlinear_arith)
                        requires
                            a@ == q * b@ + rest@,
                            rest@ >= b@,
                            a@ < 10 * b@,
                            b@ > 0,
                    ;
                }
                rest = d;
                q = q + 1;
            },
            None => {
                return (q, rest);
            },
        }
    }
}

/// The decade of a positive finite pattern, and its two sides there.
fn find_decade(u: &Natural, Ghost(b): Ghost<nat>) -> (r: (i32, Natural, Natural))
    requires
        0 < b < 0x7f80_0000,
        u@ == magnitude::units(24, b),
    ensures
        r.0 == decade(u@),
        -50 <= r.0 < 43,
        r.1@ == above(u@),
        r.2@ == below(u@),
{
    let mut x: i32 = -50;
    proof {
        lemma_decade_range(b);
    }
    loop
        invariant
            0 < b < 0x7f80_0000,
            u@ == magnitude::units(24, b),
            -50 <= x < 43,
            at_least(u@, x as int),
        decreases 43 - x,
    {
        let next: (Natural, Natural) = sides(u, x + 1);
        if next.0.checked_sub(&next.1).is_none() {
            proof {
                lemma_decade_is(u@, x as int);
            }
            let here: (Natural, Natural) = sides(u, x);
            return (x, here.0, here.1);
        }
        proof {
            lemma_decade_range(b);
        }
        x = x + 1;
    }
}

/// The digits and the power of ten of the shortest decimal of a positive finite pattern.
pub(crate) fn shortest_decimal(b: u64) -> (r: (u64, i32))
    requires
        0 < b < 0x7f80_0000,
    ensures
        (r.0 as nat, r.1 as int) == shortest(b as nat),
        -60 <= r.1 <= 100,
{
    let (m, e): (u64, i32) = magnitude::unpack(24, 0x7f80_0000, b);
    let u: Natural = times_power(&Natural::from_u64(m), 2, e as u32, Ghost(pow2(e as nat)));
    let (x0, above_u, below_u): (i32, Natural, Natural) = find_decade(&u, Ghost(b as nat));
    proof {
        lemma_leading_range(b as nat);
        lemma_fewest_digits(b as nat, 1);
    }
    let first: (u64, Natural) = next_digit(above_u.copy(), &below_u);
    let mut c: u64 = first.0;
    let mut rest: Natural = first.1;
    let mut k: u32 = 1;
    let mut limit: u64 = 10;
    assert(above(u@) * decimal::pow10(0) == above(u@)) by (nonlinear_arith)
        requires
            decimal::pow10(0) == 1,
    ;
    assert(decimal::pow10(8) == 100_000_000) by {
        reveal_with_fuel(decimal::pow10, 9);
    }
    loop
        invariant
            0 < b < 0x7f80_0000,
            u@ == magnitude::units(24, b as nat),
            x0 == decade(u@),
            -50 <= x0 < 43,
            below_u@ == below(u@),
            below_u@ > 0,
            1 <= k <= 9,
            k <= 9 ==> limit <= 1_000_000_000,
            limit * decimal::pow10((9 - k) as nat) == 1_000_000_000,
            c < limit,
            above(u@) * decimal::pow10((k - 1) as nat) == c * below_u@ + rest@,
            rest@ < below_u@,
            fewest_digits(b as nat, 1) == fewest_digits(b as nat, k as nat),
            candidate(b as nat, fewest_digits(b as nat, 1)) is Some,
        decreases 10 - k,
    {
        let x: i32 = x0 - k as i32 + 1;
        let mut twice: Natural = rest.copy();
        twice.mul_add(2, 0);
        let closer: bool = twice.checked_sub(&below_u).is_none();
        proof {
            vstd::arithmetic::div_mod::lemma_fundamental_div_mod_converse(
                (above(u@) * decimal::pow10((k - 1) as nat)) as int,
                below_u@ as int,
                c as int,
                rest@ as int,
            );
            assert(leading(u@, k as nat) == c);
            assert(closer == closer_below(u@, k as nat));
        }
        let down: bool = reads_back(b, c, x);
        let up: bool = reads_back(b, c + 1, x);
        if down || up {
            let found: u64 = if down && (!up || closer) {
                c
            } else {
                c + 1
            };
            assert(candidate(b as nat, k as nat) == Some(found as nat));
            return strip(found, x);
        }
        assert(candidate(b as nat, k as nat) is None);
        let ghost c0 = c;
        let ghost rest0 = rest@;
        rest.mul_add(10, 0);
        let next: (u64, Natural) = next_digit(rest, &below_u);
        proof {
            let pk = decimal::pow10((k - 1) as nat);
            assert(above(u@) * decimal::pow10(k as nat) == (above(u@) * pk) * 10) by (nonlinear_arith)
                requires
                    decimal::pow10(k as nat) == 10 * pk,
            ;
            assert((10 * c0 + next.0) * below_u@ == 10 * (c0 * below_u@) + next.0 * below_u@)
                by (nonlinear_arith);
            let pl = decimal::pow10((8 - k) as nat);
            assert((10 * limit) * pl == limit * decimal::pow10((9 - k) as nat)) by (nonlinear_arith)
                requires
                    decimal::pow10((9 - k) as nat) == 10 * pl,
            ;
            decimal::lemma_pow10((8 - k) as nat);
            assert(10 * limit <= (10 * limit) * pl) by (nonlinear_arith)
                requires
                    pl >= 1,
            ;
        }
        c = c * 10 + next.0;
        rest = next.1;
        limit = limit * 10;
        k = k + 1;
    }
}

fn strip(c: u64, x: i32) -> (r: (u64, i32))
    requires
        -60 <= x <= 50,
        c <= 1_000_000_000,
    ensures
        (r.0 as nat, r.1 as int) == stripped(c as nat, x as int),
        -60 <= r.1 <= 100,
{
    let mut d: u64 = c;
    let mut y: i32 = x;
    assert(c * decimal::pow10(0) == c) by (nonlinear_arith)
        requires
            decimal::pow10(0) == 1,
    ;
    while d > 0 && d % 10 == 0
        invariant
            stripped(d as nat, y as int) == stripped(c as nat, x as int),
            x <= y <= x + 9,
            -60 <= x <= 50,
            d * decimal::pow10((y - x) as nat) <= 1_000_000_000,
        decreases d,
    {
        proof {
            let t = decimal::pow10((y - x) as nat);
            assert(decimal::pow10(9) == 1_000_000_000) by {
                reveal_with_fuel(decimal::pow10, 10);
            }
            assert(t < 1_000_000_000) by (nonlinear_arith)
                requires
                    d * t <= 1_000_000_000,
                    d >= 10,
                    t >= 0,
            ;
            assert((d / 10) * (10 * t) == d * t) by (nonlinear_arith)
                requires
                    (d / 10) * 10 == d,
            ;
        }
        d = d / 10;
        y = y + 1;
    }
    (d, y)
}

fn push_zeros(s: &mut String, n: u32)
    ensures
        final(s)@ == old(s)@ + zeros(n as nat),
{
    let mut i: u32 = 0;
    let ghost start = s@;
    assert(start + zeros(0) =~= start);
    while i < n
        invariant
            i <= n,
            s@ == start + zeros(i as nat),
        decreases n - i,
    {
        s.push('0');
        i = i + 1;
        assert(s@ =~= start + zeros(i as nat));
    }
}

fn push_positional(s: &mut String, c: u64, x: i32)
    requires
        -60 <= x <= 100,
    ensures
        final(s)@ == old(s)@ + positional(text::decimal(c as nat), x as int),
{
    let ghost start = s@;
    let digits: String = text::decimal_text(c);
    let d: Vec<char> = text::to_chars(digits.as_str());
    let n: usize = d.len();
    if x >= 0 {
        s.append(digits.as_str());
        push_zeros(s, x as u32);
        assert(s@ =~= start + positional(digits@, x as int));
    } else if ((-x) as usize) < n {
        let point: usize = n - (-x) as usize;
        s.append(text::slice(&d, 0, point).as_str());
        s.push('.');
        s.append(text::slice(&d, point, n).as_str());
        assert(s@ =~= start + positional(digits@, x as int));
    } else {
        s.push('0');
        s.push('.');
        push_zeros(s, (-x) as u32 - n as u32);
        s.append(digits.as_str());
        assert(s@ =~= start + positional(digits@, x as int));
    }
}

/// A number's text: the shortest decimal that reads back as it, without an exponent.
pub fn display_text(v: F32) -> (r: String)
    ensures
        r@ == display(v),
{
    let mut s: String = String::new();
    if v.is_nan() {
        s.push('N');
        s.push('a');
        s.push('N');
        assert(s@ =~= display(v));
        return s;
    }
    let b: u64 = v.bits_abs();
    if v.sign_bit() {
        s.push('-');
    }
    if b == 0x7f80_0000 {
        s.push('i');
        s.push('n');
        s.push('f');
    } else if b == 0 {
        s.push('0');
    } else {
        let (c, x): (u64, i32) = shortest_decimal(b);
        push_positional(&mut s, c, x);
    }
    assert(s@ =~= display(v));
    s
}

} // verus!
