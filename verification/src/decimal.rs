//! Decimal numbers and their nearest binary ones, both ways.

use vstd::prelude::*;
use vstd::arithmetic::power2::pow2;
use crate::magnitude;
use crate::natural::Natural;
use crate::rounding;

verus! {

pub open spec fn pow10(n: nat) -> nat
    decreases n,
{
    if n == 0 {
        1
    } else {
        10 * pow10((n - 1) as nat)
    }
}

/// The bit pattern nearest to `d * 10^x`, in a format of precision `p` and unit `2^-k`.
pub open spec fn from_decimal(p: nat, k: nat, inf: nat, d: nat, x: int) -> nat {
    if d == 0 {
        0
    } else if x >= 0 {
        rounding::round(p, inf, d * pow10(x as nat) * pow2(k), 1)
    } else {
        rounding::round(p, inf, d * pow2(k), pow10((-x) as nat))
    }
}

/// The number a row of decimal digits stands for.
pub open spec fn digits_number(s: Seq<u8>) -> nat
    decreases s.len(),
{
    if s.len() == 0 {
        0
    } else {
        10 * digits_number(s.drop_last()) + s.last() as nat
    }
}

pub open spec fn all_digits(s: Seq<u8>) -> bool {
    forall|i: int| 0 <= i < s.len() ==> #[trigger] s[i] <= 9
}

pub(crate) proof fn lemma_pow10(n: nat)
    ensures
        pow10(n) > 0,
        pow10(n) >= pow2(3 * n),
    decreases n,
{
    vstd::arithmetic::power2::lemma2_to64();
    if n > 0 {
        lemma_pow10((n - 1) as nat);
        vstd::arithmetic::power2::lemma_pow2_adds(3, (3 * n - 3) as nat);
    }
}

pub(crate) proof fn lemma_pow10_adds(a: nat, b: nat)
    ensures
        pow10(a + b) == pow10(a) * pow10(b),
    decreases a,
{
    if a > 0 {
        lemma_pow10_adds((a - 1) as nat, b);
        assert(10 * (pow10((a - 1) as nat) * pow10(b)) == (10 * pow10((a - 1) as nat)) * pow10(b))
            by (nonlinear_arith);
    } else {
        assert(1 * pow10(b) == pow10(b));
    }
}

pub(crate) proof fn lemma_digits_bound(s: Seq<u8>)
    requires
        all_digits(s),
    ensures
        digits_number(s) < pow10(s.len()),
    decreases s.len(),
{
    if s.len() > 0 {
        lemma_digits_bound(s.drop_last());
    }
}

proof fn lemma_place_at_least(p: nat, num: nat, den: nat, t: nat)
    requires
        den > 0,
        t > 0,
        num >= den * pow2((t - 1 + p) as nat),
    ensures
        rounding::last_place(p, num, den) >= t,
    decreases t,
{
    vstd::arithmetic::power2::lemma_pow2_pos(p);
    if t > 1 {
        vstd::arithmetic::power2::lemma_pow2_unfold((t - 1 + p) as nat);
        vstd::arithmetic::power2::lemma_pow2_strictly_increases(p, (t - 1 + p) as nat);
        assert(den * pow2((t - 1 + p) as nat) == (2 * den) * pow2((t - 2 + p) as nat)) by (nonlinear_arith)
            requires
                pow2((t - 1 + p) as nat) == 2 * pow2((t - 2 + p) as nat),
        ;
        assert(den * pow2((t - 1 + p) as nat) >= den * pow2(p)) by (nonlinear_arith)
            requires
                pow2((t - 1 + p) as nat) >= pow2(p),
        ;
        lemma_place_at_least(p, num, 2 * den, (t - 1) as nat);
    }
}

/// The least exponent whose power of two, in units, is past the largest finite number.
spec fn limit(p: u32) -> nat {
    if p == 24 {
        278
    } else {
        2099
    }
}

/// A magnitude past the format's range is infinite.
proof fn lemma_huge(p: u32, inf: u64, num: nat, den: nat)
    requires
        magnitude::is_format(p, inf),
        den > 0,
        num >= den * pow2(limit(p)),
    ensures
        rounding::round(p as nat, inf as nat, num, den) == inf,
{
    let top: nat = if p == 24 { 255 } else { 2047 };
    let h = pow2((p - 1) as nat);
    lemma_place_at_least(p as nat, num, den, top);
    vstd::arithmetic::power2::lemma2_to64();
    vstd::arithmetic::power2::lemma2_to64_rest();
    let t = rounding::last_place(p as nat, num, den);
    assert(t * h >= inf) by (nonlinear_arith)
        requires
            t >= top,
            top * h == inf,
    ;
}

/// A magnitude under half a unit is zero.
proof fn lemma_tiny(p: u32, inf: u64, num: nat, den: nat)
    requires
        magnitude::is_format(p, inf),
        2 * num < den,
    ensures
        rounding::round(p as nat, inf as nat, num, den) == 0,
{
    vstd::arithmetic::power2::lemma2_to64();
    vstd::arithmetic::power2::lemma_pow2_pos(p as nat);
    assert(num < den * pow2(p as nat)) by (nonlinear_arith)
        requires
            2 * num < den,
            pow2(p as nat) >= 1,
    ;
    assert(rounding::last_place(p as nat, num, den) == 0);
    assert(den * pow2(0) == den) by (nonlinear_arith)
        requires
            pow2(0) == 1,
    ;
    vstd::arithmetic::div_mod::lemma_fundamental_div_mod_converse(num as int, den as int, 0, num as int);
    assert(0 * pow2((p - 1) as nat) == 0);
}

proof fn lemma_brackets(
    q: nat,
    r: nat,
    c: nat,
    n: nat,
    k: nat,
    num: nat,
    den: nat,
    e: int,
)
    requires
        den > 0,
        num * pow2(n) == q * (den * pow2(c)) + r,
        r < den * pow2(c),
        e == c - n + k,
    ensures
        rounding::brackets(q, e, r != 0, num * pow2(k), den),
{
    let up: nat = if e >= 0 { e as nat } else { 0 };
    let down: nat = if e >= 0 { 0 } else { (-e) as nat };
    vstd::arithmetic::power2::lemma_pow2_adds(up, n);
    vstd::arithmetic::power2::lemma_pow2_adds(down, c);
    vstd::arithmetic::power2::lemma_pow2_adds(down + c, k);
    vstd::arithmetic::power2::lemma_pow2_pos(n);
    vstd::arithmetic::power2::lemma_pow2_pos(c);
    vstd::arithmetic::power2::lemma_pow2_pos(down);
    vstd::arithmetic::power2::lemma_pow2_pos(k);
    let (xu, xd, xn, xc, xk) = (pow2(up), pow2(down), pow2(n), pow2(c), pow2(k));
    assert(up + n == down + c + k);
    assert(xu * xn == xd * xc * xk);
    let lo = q * xu * den;
    let hi = (q + 1) * xu * den;
    let mid = (num * xk) * xd;
    let z = xd * xc * xk;
    assert(lo * xn == (q * den) * z) by (nonlinear_arith)
        requires
            lo == q * xu * den,
            xu * xn == z,
    ;
    assert(hi * xn == (q * den + den) * z) by (nonlinear_arith)
        requires
            hi == (q + 1) * xu * den,
            xu * xn == z,
    ;
    assert(mid * xn == (num * xn) * (xk * xd)) by (nonlinear_arith)
        requires
            mid == (num * xk) * xd,
    ;
    assert((num * xn) * (xk * xd) == (q * den) * z + r * (xk * xd)) by (nonlinear_arith)
        requires
            num * xn == q * (den * xc) + r,
            z == xd * xc * xk,
    ;
    assert(r * (xk * xd) == r * xk * xd) by (nonlinear_arith);
    assert((q * den + den) * z == (q * den) * z + den * xd * xc * xk) by (nonlinear_arith)
        requires
            z == xd * xc * xk,
    ;
    assert(r * xk * xd < den * xd * xc * xk) by (nonlinear_arith)
        requires
            r < den * xc,
            xk > 0,
            xd > 0,
    ;
    assert(r > 0 ==> r * xk * xd > 0) by (nonlinear_arith)
        requires
            xk > 0,
            xd > 0,
    ;
    assert(r == 0 ==> r * xk * xd == 0) by (nonlinear_arith);
    assert(lo <= mid < hi && (lo == mid <==> r == 0)) by (nonlinear_arith)
        requires
            mid * xn == lo * xn + r * xk * xd,
            hi * xn == lo * xn + den * xd * xc * xk,
            0 <= r * xk * xd < den * xd * xc * xk,
            r == 0 <==> r * xk * xd == 0,
            xn > 0,
    ;
}

/// Rounds `num * 2^k / den` units, both positive.
fn round_ratio(p: u32, k: u32, inf: u64, num: Natural, den: &Natural) -> (b: u64)
    requires
        magnitude::is_format(p, inf),
        k <= 1074,
        num@ > 0,
        den@ > 0,
    ensures
        b == rounding::round(p as nat, inf as nat, num@ * pow2(k as nat), den@),
        b <= inf,
{
    let ghost n0 = num@;
    let ghost d0 = den@;
    let ghost kk = pow2(k as nat);
    let mut scaled: Natural = Natural { limbs: den.limbs.clone() };
    let mut c: u32 = 0;
    proof {
        vstd::arithmetic::power2::lemma2_to64();
        vstd::arithmetic::power2::lemma_pow2_pos(k as nat);
        assert(scaled.limbs@ =~= den.limbs@);
        assert(d0 * pow2(0) == d0) by (nonlinear_arith)
            requires
                pow2(0) == 1,
        ;
    }
    loop
        invariant_except_break
            c <= 4000,
        invariant
            magnitude::is_format(p, inf),
            k <= 1074,
            num@ == n0,
            n0 > 0,
            den@ == d0,
            d0 > 0,
            kk == pow2(k as nat) > 0,
            c <= 4000,
            scaled@ == d0 * pow2(c as nat),
            scaled@ > 0,
        ensures
            n0 < scaled@,
        decreases 4001 - c,
    {
        if num.checked_sub(&scaled).is_none() {
            break;
        }
        if c == 4000 {
            proof {
                vstd::arithmetic::power2::lemma_pow2_strictly_increases(limit(p), 4000);
                assert(n0 * kk >= d0 * pow2(limit(p))) by (nonlinear_arith)
                    requires
                        n0 >= d0 * pow2(4000),
                        pow2(4000) >= pow2(limit(p)),
                        kk >= 1,
                        d0 > 0,
                ;
                lemma_huge(p, inf, n0 * kk, d0);
            }
            return inf;
        }
        proof {
            vstd::arithmetic::power2::lemma_pow2_unfold((c + 1) as nat);
            assert(d0 * pow2((c + 1) as nat) == (d0 * pow2(c as nat)) * 2) by (nonlinear_arith)
                requires
                    pow2((c + 1) as nat) == 2 * pow2(c as nat),
            ;
        }
        scaled.mul_add(2, 0);
        c = c + 1;
    }
    let mut q: u128 = 0;
    let mut rest: Natural = Natural { limbs: num.limbs.clone() };
    let mut n: u32 = 0;
    proof {
        assert(n0 * pow2(0) == n0) by (nonlinear_arith)
            requires
                pow2(0) == 1,
        ;
        assert(0 * scaled@ == 0);
        assert(rest.limbs@ =~= num.limbs@);
    }
    while q < 0x1_0000_0000_0000_0000
        invariant
            magnitude::is_format(p, inf),
            k <= 1074,
            num@ == n0,
            den@ == d0,
            d0 > 0,
            n0 > 0,
            kk == pow2(k as nat) > 0,
            c <= 4000,
            scaled@ == d0 * pow2(c as nat),
            scaled@ > 0,
            n <= 8000,
            q < 0x2_0000_0000_0000_0000,
            n0 * pow2(n as nat) == q * scaled@ + rest@,
            rest@ < scaled@,
        decreases 8000 - n,
    {
        if n == 8000 {
            proof {
                vstd::arithmetic::power2::lemma2_to64();
                vstd::arithmetic::power2::lemma_pow2_adds(64, c as nat);
                vstd::arithmetic::power2::lemma_pow2_strictly_increases((64 + c) as nat, 4065);
                vstd::arithmetic::power2::lemma_pow2_adds(4065, 3935);
                vstd::arithmetic::power2::lemma_pow2_strictly_increases((k + 1) as nat, 3935);
                vstd::arithmetic::power2::lemma_pow2_unfold((k + 1) as nat);
                vstd::arithmetic::power2::lemma_pow2_pos(4065);
                let w = pow2(c as nat);
                assert(n0 * pow2(8000) < (pow2(64) * w) * d0) by (nonlinear_arith)
                    requires
                        n0 * pow2(8000) == q * (d0 * w) + rest@,
                        rest@ < d0 * w,
                        q + 1 <= pow2(64),
                ;
                assert(n0 * pow2(3935) < d0) by (nonlinear_arith)
                    requires
                        n0 * pow2(8000) < (pow2(64) * w) * d0,
                        pow2(64) * w <= pow2(4065),
                        pow2(8000) == pow2(4065) * pow2(3935),
                        pow2(4065) > 0,
                        d0 > 0,
                ;
                assert(2 * (n0 * kk) < d0) by (nonlinear_arith)
                    requires
                        n0 * pow2(3935) < d0,
                        2 * kk <= pow2(3935),
                        n0 > 0,
                ;
                lemma_tiny(p, inf, n0 * kk, d0);
            }
            return 0;
        }
        proof {
            vstd::arithmetic::power2::lemma_pow2_unfold((n + 1) as nat);
            assert(n0 * pow2((n + 1) as nat) == (2 * q) * scaled@ + rest@ * 2) by (nonlinear_arith)
                requires
                    n0 * pow2(n as nat) == q * scaled@ + rest@,
                    pow2((n + 1) as nat) == 2 * pow2(n as nat),
            ;
        }
        rest.mul_add(2, 0);
        q = q * 2;
        n = n + 1;
        match rest.checked_sub(&scaled) {
            Some(d) => {
                proof {
                    assert((q + 1) * scaled@ == q * scaled@ + scaled@) by (nonlinear_arith);
                }
                rest = d;
                q = q + 1;
            },
            None => {},
        }
    }
    let e: i32 = c as i32 - n as i32 + k as i32;
    let sticky: bool = !rest.is_zero();
    proof {
        lemma_brackets(q as nat, rest@, c as nat, n as nat, k as nat, n0, d0, e as int);
        vstd::arithmetic::power2::lemma2_to64();
        vstd::arithmetic::power2::lemma_pow2_strictly_increases((p + 1) as nat, 64);
    }
    rounding::round_bits(p, inf, q, e, sticky, Ghost(n0 * kk), Ghost(d0))
}

/// The bit pattern nearest to the digits' number times `10^x`.
pub fn decimal_bits(p: u32, k: u32, inf: u64, digits: &Vec<u8>, x: i128) -> (b: u64)
    requires
        magnitude::is_format(p, inf),
        (p == 24 && k == 149) || (p == 53 && k == 1074),
        all_digits(digits@),
    ensures
        b == from_decimal(p as nat, k as nat, inf as nat, digits_number(digits@), x as int),
        b <= inf,
{
    let mut num: Natural = Natural::from_u64(0);
    let mut i: usize = 0;
    proof {
        assert(digits@.take(0) =~= Seq::<u8>::empty());
    }
    while i < digits.len()
        invariant
            i <= digits.len(),
            all_digits(digits@),
            num@ == digits_number(digits@.take(i as int)),
        decreases digits.len() - i,
    {
        proof {
            assert(digits@.take(i + 1).drop_last() =~= digits@.take(i as int));
        }
        num.mul_add(10, digits[i] as u32);
        i = i + 1;
    }
    proof {
        assert(digits@.take(i as int) =~= digits@);
    }
    let ghost d = digits_number(digits@);
    let ghost kk = pow2(k as nat);
    if num.is_zero() {
        return 0;
    }
    let one: Natural = Natural::from_u64(1);
    if x >= 400 {
        proof {
            lemma_huge_decimal(p, k, inf, d, x as nat);
        }
        return inf;
    }
    if x >= 0 {
        let mut j: i128 = 0;
        proof {
            assert(d * pow10(0) == d) by (nonlinear_arith)
                requires
                    pow10(0) == 1,
            ;
        }
        while j < x
            invariant
                0 <= j <= x < 400,
                num@ == d * pow10(j as nat),
                d > 0,
                num@ > 0,
            decreases x - j,
        {
            proof {
                assert(d * (10 * pow10(j as nat)) == (d * pow10(j as nat)) * 10) by (nonlinear_arith);
            }
            num.mul_add(10, 0);
            j = j + 1;
        }
        return round_ratio(p, k, inf, num, &one);
    }
    if x < -0x1_0000_0000_0000_0000_0000 || -x >= digits.len() as i128 + 400 {
        proof {
            let y = (-x) as nat;
            let len = digits@.len();
            lemma_digits_bound(digits@);
            lemma_tiny_decimal(p, k, inf, d, len, y);
        }
        return 0;
    }
    let mut den: Natural = one;
    let mut j: i128 = 0;
    while j < -x
        invariant
            0 <= j <= -x,
            x >= -0x1_0000_0000_0000_0000_0000,
            den@ == pow10(j as nat),
            den@ > 0,
        decreases -x - j,
    {
        den.mul_add(10, 0);
        j = j + 1;
    }
    round_ratio(p, k, inf, num, &den)
}

pub(crate) proof fn lemma_tiny_decimal(p: u32, k: u32, inf: u64, d: nat, len: nat, y: nat)
    requires
        magnitude::is_format(p, inf),
        (p == 24 && k == 149) || (p == 53 && k == 1074),
        d < pow10(len),
        y >= len + 400,
    ensures
        rounding::round(p as nat, inf as nat, d * pow2(k as nat), pow10(y)) == 0,
{
    let kk = pow2(k as nat);
    lemma_pow10_adds(len, (y - len) as nat);
    lemma_pow10((y - len) as nat);
    lemma_pow10(len);
    vstd::arithmetic::power2::lemma_pow2_strictly_increases((k + 1) as nat, (3 * (y - len)) as nat);
    vstd::arithmetic::power2::lemma_pow2_unfold((k + 1) as nat);
    vstd::arithmetic::power2::lemma_pow2_pos(k as nat);
    assert(2 * (d * kk) < pow10(y)) by (nonlinear_arith)
        requires
            d < pow10(len),
            2 * kk <= pow10((y - len) as nat),
            pow10(y) == pow10(len) * pow10((y - len) as nat),
            kk > 0,
    ;
    lemma_tiny(p, inf, d * kk, pow10(y));
}

pub(crate) proof fn lemma_huge_decimal(p: u32, k: u32, inf: u64, d: nat, x: nat)
    requires
        magnitude::is_format(p, inf),
        (p == 24 && k == 149) || (p == 53 && k == 1074),
        d > 0,
        x >= 400,
    ensures
        rounding::round(p as nat, inf as nat, d * pow10(x) * pow2(k as nat), 1) == inf,
{
    let kk = pow2(k as nat);
    vstd::arithmetic::power2::lemma_pow2_pos(k as nat);
    lemma_pow10(x);
    vstd::arithmetic::power2::lemma_pow2_strictly_increases(limit(p), 3 * x + k as nat);
    vstd::arithmetic::power2::lemma_pow2_adds(3 * x, k as nat);
    let num = d * pow10(x) * kk;
    assert(num >= pow2(limit(p))) by (nonlinear_arith)
        requires
            num == d * pow10(x) * kk,
            pow10(x) >= pow2(3 * x),
            pow2(3 * x) * kk >= pow2(limit(p)),
            d >= 1,
            kk > 0,
    ;
    lemma_huge(p, inf, num, 1);
}

} // verus!
