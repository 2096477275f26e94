//! Numbers written as text.
//!
//! A float is `[-+]?((D+\.?D*)|(\.D+))([Ee][-+]?D+)?`; a number is a float, or `inf`, `infinity`
//! or `nan` in any case after an optional sign.

use vstd::prelude::*;
use crate::decimal;
use crate::float32::F32;
use crate::text;

verus! {

pub open spec fn is_sign(c: char) -> bool {
    c == '+' || c == '-'
}

/// The end of the run of digits that starts at `i`.
pub open spec fn digits_end(s: Seq<char>, i: int) -> int
    decreases s.len() - i,
{
    if 0 <= i < s.len() && text::is_digit(s[i]) {
        digits_end(s, i + 1)
    } else {
        i
    }
}

/// Past an optional sign at `i`.
pub open spec fn sign_end(s: Seq<char>, i: int) -> int {
    if 0 <= i < s.len() && is_sign(s[i]) {
        i + 1
    } else {
        i
    }
}

pub open spec fn integer_start(s: Seq<char>) -> int {
    sign_end(s, 0)
}

pub open spec fn integer_end(s: Seq<char>) -> int {
    digits_end(s, integer_start(s))
}

/// Past the decimal point, if there is one.
pub open spec fn fraction_start(s: Seq<char>) -> int {
    let i = integer_end(s);
    if i < s.len() && s[i] == '.' {
        i + 1
    } else {
        i
    }
}

pub open spec fn fraction_end(s: Seq<char>) -> int {
    if fraction_start(s) > integer_end(s) {
        digits_end(s, fraction_start(s))
    } else {
        integer_end(s)
    }
}

pub open spec fn exponent_start(s: Seq<char>) -> int {
    sign_end(s, fraction_end(s) + 1)
}

pub open spec fn exponent_end(s: Seq<char>) -> int {
    digits_end(s, exponent_start(s))
}

/// An `e` or `E` after the mantissa, and at least one digit behind it.
pub open spec fn has_exponent(s: Seq<char>) -> bool {
    let i = fraction_end(s);
    i < s.len() && (s[i] == 'e' || s[i] == 'E') && exponent_end(s) > exponent_start(s)
}

/// The whole text is a float.
pub open spec fn float_text(s: Seq<char>) -> bool {
    &&& integer_end(s) > integer_start(s) || fraction_end(s) > fraction_start(s)
    &&& s.len() == if has_exponent(s) {
        exponent_end(s)
    } else {
        fraction_end(s)
    }
}

/// The digits from `a` up to `b`.
pub open spec fn digit_values(s: Seq<char>, a: int, b: int) -> Seq<u8> {
    Seq::new((b - a) as nat, |i: int| ((s[a + i] as u8) - 48) as u8)
}

/// The digits of the mantissa, without the point.
pub open spec fn mantissa(s: Seq<char>) -> Seq<u8> {
    digit_values(s, integer_start(s), integer_end(s)) + digit_values(s, fraction_start(s), fraction_end(s))
}

pub open spec fn exponent(s: Seq<char>) -> int {
    if !has_exponent(s) {
        0
    } else {
        let e = decimal::digits_number(digit_values(s, exponent_start(s), exponent_end(s)));
        if s[fraction_end(s) + 1] == '-' {
            -(e as int)
        } else {
            e as int
        }
    }
}

/// The single precision number nearest to the float a text writes down.
pub open spec fn float_value(s: Seq<char>) -> F32 {
    F32::make(
        s[0] == '-',
        decimal::from_decimal(
            24,
            149,
            0x7f80_0000,
            decimal::digits_number(mantissa(s)),
            exponent(s) - (fraction_end(s) - fraction_start(s)),
        ),
    )
}

/// The number a text stands for, where the whole of it is one.
pub open spec fn number(s: Seq<char>) -> Option<F32> {
    let word = s.skip(sign_end(s, 0));
    let negative = s.len() > 0 && s[0] == '-';
    if float_text(s) {
        Some(float_value(s))
    } else if text::same_letters(word, "inf"@) || text::same_letters(word, "infinity"@) {
        Some(F32::make(negative, 0x7f80_0000))
    } else if text::same_letters(word, "nan"@) {
        Some(F32::make(negative, 0x7fc0_0000))
    } else {
        None
    }
}

pub(crate) proof fn lemma_digits_end(s: Seq<char>, i: int)
    requires
        0 <= i <= s.len(),
    ensures
        i <= digits_end(s, i) <= s.len(),
        forall|j: int| i <= j < digits_end(s, i) ==> text::is_digit(#[trigger] s[j]),
        digits_end(s, i) < s.len() ==> !text::is_digit(s[digits_end(s, i)]),
    decreases s.len() - i,
{
    if i < s.len() && text::is_digit(s[i]) {
        lemma_digits_end(s, i + 1);
    }
}

/// Every text that is a float has a value.
pub proof fn lemma_float_text_is_number(s: Seq<char>)
    requires
        float_text(s),
    ensures
        number(s) == Some(float_value(s)),
{
}

pub fn is_digit(c: char) -> (r: bool)
    ensures
        r == text::is_digit(c),
{
    '0' <= c && c <= '9'
}

fn skip_digits(c: &Vec<char>, from: usize) -> (r: usize)
    requires
        from <= c@.len(),
    ensures
        r == digits_end(c@, from as int),
        from <= r <= c@.len(),
        forall|j: int| from <= j < r ==> text::is_digit(#[trigger] c@[j]),
{
    let mut i: usize = from;
    while i < c.len() && is_digit(c[i])
        invariant
            from <= i <= c@.len(),
            digits_end(c@, from as int) == digits_end(c@, i as int),
            forall|j: int| from <= j < i ==> text::is_digit(#[trigger] c@[j]),
        decreases c@.len() - i,
    {
        i = i + 1;
    }
    i
}

fn skip_sign(c: &Vec<char>, i: usize) -> (r: usize)
    requires
        i <= c@.len(),
    ensures
        r == sign_end(c@, i as int),
        i <= r <= c@.len(),
{
    if i < c.len() && (c[i] == '+' || c[i] == '-') {
        i + 1
    } else {
        i
    }
}

/// The parts of a float, as positions in its text.
struct Parts {
    integer_start: usize,
    integer_end: usize,
    fraction_start: usize,
    fraction_end: usize,
    exponent_start: usize,
    exponent_end: usize,
    has_exponent: bool,
}

impl Parts {
    spec fn of(self, s: Seq<char>) -> bool {
        &&& self.integer_start == integer_start(s)
        &&& self.integer_end == integer_end(s)
        &&& self.fraction_start == fraction_start(s)
        &&& self.fraction_end == fraction_end(s)
        &&& self.integer_start <= self.integer_end <= self.fraction_start <= self.fraction_end <= s.len()
        &&& self.has_exponent == has_exponent(s)
        &&& self.has_exponent ==> {
            &&& self.exponent_start == exponent_start(s)
            &&& self.exponent_end == exponent_end(s)
            &&& self.fraction_end < self.exponent_start < self.exponent_end <= s.len()
        }
        &&& forall|i: int| self.integer_start <= i < self.integer_end ==> text::is_digit(#[trigger] s[i])
        &&& forall|i: int| self.fraction_start <= i < self.fraction_end ==> text::is_digit(#[trigger] s[i])
        &&& self.has_exponent ==> forall|i: int|
            self.exponent_start <= i < self.exponent_end ==> text::is_digit(#[trigger] s[i])
    }
}

fn parts(c: &Vec<char>) -> (r: Parts)
    ensures
        r.of(c@),
{
    let integer_start: usize = skip_sign(c, 0);
    let integer_end: usize = skip_digits(c, integer_start);
    let mut fraction_start: usize = integer_end;
    let mut fraction_end: usize = integer_end;
    if integer_end < c.len() && c[integer_end] == '.' {
        fraction_start = integer_end + 1;
        fraction_end = skip_digits(c, fraction_start);
    }
    let mut exponent_start: usize = fraction_end;
    let mut exponent_end: usize = fraction_end;
    let mut has_exponent: bool = false;
    if fraction_end < c.len() && (c[fraction_end] == 'e' || c[fraction_end] == 'E') {
        exponent_start = skip_sign(c, fraction_end + 1);
        exponent_end = skip_digits(c, exponent_start);
        has_exponent = exponent_end > exponent_start;
    }
    Parts {
        integer_start,
        integer_end,
        fraction_start,
        fraction_end,
        exponent_start,
        exponent_end,
        has_exponent,
    }
}

fn parts_make_float(p: &Parts, c: &Vec<char>) -> (r: bool)
    requires
        p.of(c@),
    ensures
        r == float_text(c@),
{
    (p.integer_end > p.integer_start || p.fraction_end > p.fraction_start) && c.len() == if p.has_exponent {
        p.exponent_end
    } else {
        p.fraction_end
    }
}

/// Whether the whole text matches `[-+]?((D+\.?D*)|(\.D+))([Ee][-+]?D+)?`.
pub fn is_float_text(t: &str) -> (r: bool)
    ensures
        r == float_text(t@),
{
    let c: Vec<char> = text::to_chars(t);
    let p: Parts = parts(&c);
    parts_make_float(&p, &c)
}

fn push_digits(c: &Vec<char>, a: usize, b: usize, out: &mut Vec<u8>)
    requires
        a <= b <= c@.len(),
        forall|i: int| a <= i < b ==> text::is_digit(#[trigger] c@[i]),
        decimal::all_digits(old(out)@),
    ensures
        final(out)@ == old(out)@ + digit_values(c@, a as int, b as int),
        decimal::all_digits(final(out)@),
{
    let mut i: usize = a;
    let ghost start = out@;
    assert(start + digit_values(c@, a as int, a as int) =~= start);
    while i < b
        invariant
            a <= i <= b <= c@.len(),
            forall|i: int| a <= i < b ==> text::is_digit(#[trigger] c@[i]),
            decimal::all_digits(out@),
            out@ == start + digit_values(c@, a as int, i as int),
        decreases b - i,
    {
        assert(text::is_digit(c@[i as int]));
        out.push(c[i] as u8 - 48);
        i = i + 1;
        assert(out@ =~= start + digit_values(c@, a as int, i as int));
    }
}

/// The bound past which an exponent decides the result alone.
pub const EXPONENT_LIMIT: i128 = 1_000_000_000_000_000_000_000_000_000_000;

spec fn clip(e: nat) -> int {
    if e < EXPONENT_LIMIT {
        e as int
    } else {
        EXPONENT_LIMIT as int
    }
}

fn clipped_number(c: &Vec<char>, a: usize, b: usize) -> (r: i128)
    requires
        a <= b <= c@.len(),
        forall|i: int| a <= i < b ==> text::is_digit(#[trigger] c@[i]),
    ensures
        r == clip(decimal::digits_number(digit_values(c@, a as int, b as int))),
{
    let mut e: i128 = 0;
    let mut i: usize = a;
    while i < b
        invariant
            a <= i <= b <= c@.len(),
            forall|i: int| a <= i < b ==> text::is_digit(#[trigger] c@[i]),
            e == clip(decimal::digits_number(digit_values(c@, a as int, i as int))),
        decreases b - i,
    {
        assert(text::is_digit(c@[i as int]));
        assert(digit_values(c@, a as int, i + 1).drop_last() =~= digit_values(c@, a as int, i as int));
        let n: i128 = e * 10 + (c[i] as u8 - 48) as i128;
        e = if n < EXPONENT_LIMIT {
            n
        } else {
            EXPONENT_LIMIT
        };
        i = i + 1;
    }
    e
}

proof fn lemma_clip_exponent(digits: Seq<u8>, e: nat, negative: bool, shift: nat)
    requires
        decimal::all_digits(digits),
        digits.len() <= 0x1_0000_0000_0000_0000,
        shift <= 0x1_0000_0000_0000_0000,
    ensures
        ({
            let d = decimal::digits_number(digits);
            let x = if negative { -(e as int) } else { e as int };
            let y = if negative { -clip(e) } else { clip(e) };
            decimal::from_decimal(24, 149, 0x7f80_0000, d, x - shift) == decimal::from_decimal(
                24,
                149,
                0x7f80_0000,
                d,
                y - shift,
            )
        }),
{
    let d = decimal::digits_number(digits);
    if e >= EXPONENT_LIMIT && d > 0 {
        if negative {
            decimal::lemma_digits_bound(digits);
            decimal::lemma_tiny_decimal(24, 149, 0x7f80_0000, d, digits.len(), (e + shift) as nat);
            decimal::lemma_tiny_decimal(24, 149, 0x7f80_0000, d, digits.len(), (clip(e) + shift) as nat);
        } else {
            decimal::lemma_huge_decimal(24, 149, 0x7f80_0000, d, (e - shift) as nat);
            decimal::lemma_huge_decimal(24, 149, 0x7f80_0000, d, (clip(e) - shift) as nat);
        }
    }
}

fn read_float(c: &Vec<char>, p: &Parts) -> (r: F32)
    requires
        p.of(c@),
        float_text(c@),
    ensures
        r == float_value(c@),
{
    let mut digits: Vec<u8> = Vec::new();
    push_digits(c, p.integer_start, p.integer_end, &mut digits);
    push_digits(c, p.fraction_start, p.fraction_end, &mut digits);
    let mut e: i128 = 0;
    let shift: usize = p.fraction_end - p.fraction_start;
    assert(digits@ =~= mantissa(c@));
    if p.has_exponent {
        e = clipped_number(c, p.exponent_start, p.exponent_end);
        let negative: bool = c[p.fraction_end + 1] == '-';
        proof {
            lemma_clip_exponent(
                digits@,
                decimal::digits_number(digit_values(c@, p.exponent_start as int, p.exponent_end as int)),
                negative,
                shift as nat,
            );
        }
        if negative {
            e = -e;
        }
    }
    let bits: u64 = decimal::decimal_bits(24, 149, 0x7f80_0000, &digits, e - shift as i128);
    F32::build(c[0] == '-', bits)
}

/// The number a text stands for: a float, an infinity or a nan, the whole text.
pub fn parse_number(t: &str) -> (r: Option<F32>)
    ensures
        r == number(t@),
{
    let c: Vec<char> = text::to_chars(t);
    let p: Parts = parts(&c);
    if parts_make_float(&p, &c) {
        return Some(read_float(&c, &p));
    }
    let negative: bool = c.len() > 0 && c[0] == '-';
    let word: String = text::slice(&c, p.integer_start, c.len());
    assert(word@ =~= t@.skip(sign_end(t@, 0)));
    if text::equal_ignoring_case(word.as_str(), "inf") || text::equal_ignoring_case(word.as_str(), "infinity") {
        Some(F32::build(negative, 0x7f80_0000))
    } else if text::equal_ignoring_case(word.as_str(), "nan") {
        Some(F32::build(negative, 0x7fc0_0000))
    } else {
        None
    }
}

} // verus!
