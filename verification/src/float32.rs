//! Single precision binary floating-point numbers, held as their bits.
//!
//! Each operation is the exact result on the operands' values rounded once to nearest, ties to
//! even; a result that is not a number is always the one pattern `0x7fc0_0000`.

use vstd::prelude::*;
use vstd::arithmetic::power2::pow2;
use crate::magnitude;
use crate::exact;
use crate::rounding;
use crate::float64::F64;

verus! {

/// The bits of a single precision number.
#[derive(Clone, Copy, Debug)]
pub struct F32(pub u32);

impl F32 {
    pub open spec fn negative(self) -> bool {
        self.0 >= 0x8000_0000
    }

    /// The bits without the sign.
    pub open spec fn magnitude(self) -> nat {
        if self.negative() {
            (self.0 - 0x8000_0000) as nat
        } else {
            self.0 as nat
        }
    }

    pub open spec fn nan(self) -> bool {
        self.magnitude() > 0x7f80_0000
    }

    pub open spec fn infinite(self) -> bool {
        self.magnitude() == 0x7f80_0000
    }

    pub open spec fn zero(self) -> bool {
        self.magnitude() == 0
    }

    /// The absolute value of a finite number, in units of `2^-149`.
    pub open spec fn units(self) -> nat {
        magnitude::units(24, self.magnitude())
    }

    /// The value of a finite number, in units of `2^-149`.
    pub open spec fn value(self) -> int {
        if self.negative() {
            -(self.units() as int)
        } else {
            self.units() as int
        }
    }

    /// A number's place in the numeric order; both zeros take place 0.
    pub open spec fn rank(self) -> int {
        if self.negative() {
            -(self.magnitude() as int)
        } else {
            self.magnitude() as int
        }
    }

    pub open spec fn make(negative: bool, magnitude: nat) -> F32 {
        F32((magnitude + if negative { 0x8000_0000int } else { 0 }) as u32)
    }

    /// `num / den` units rounded, with a sign.
    pub open spec fn rounded(negative: bool, num: nat, den: nat) -> F32 {
        F32::make(negative, rounding::round(24, 0x7f80_0000, num, den))
    }

    #[verifier::opaque]
    pub open spec fn spec_add(self, o: F32) -> F32 {
        if self.nan() || o.nan() || (self.infinite() && o.infinite() && self.negative() != o.negative()) {
            F32(0x7fc0_0000)
        } else if self.infinite() {
            self
        } else if o.infinite() {
            o
        } else {
            let s = self.value() + o.value();
            if s > 0 {
                F32::rounded(false, s as nat, 1)
            } else if s < 0 {
                F32::rounded(true, (-s) as nat, 1)
            } else {
                F32::make(self.negative() && o.negative(), 0)
            }
        }
    }

    #[verifier::opaque]
    pub open spec fn spec_neg(self) -> F32 {
        if self.nan() {
            F32(0x7fc0_0000)
        } else {
            F32::make(!self.negative(), self.magnitude())
        }
    }

    pub open spec fn spec_sub(self, o: F32) -> F32 {
        self + o.spec_neg()
    }

    #[verifier::opaque]
    pub open spec fn spec_mul(self, o: F32) -> F32 {
        let sign = self.negative() != o.negative();
        if self.nan() || o.nan() || (self.infinite() && o.zero()) || (self.zero() && o.infinite()) {
            F32(0x7fc0_0000)
        } else if self.infinite() || o.infinite() {
            F32::make(sign, 0x7f80_0000)
        } else if self.zero() || o.zero() {
            F32::make(sign, 0)
        } else {
            F32::rounded(sign, self.units() * o.units(), pow2(149))
        }
    }

    /// `self / o` in a specification.
    #[verifier::opaque]
    pub open spec fn spec_euclidean_or_real_div(self, o: F32) -> F32 {
        let sign = self.negative() != o.negative();
        if self.nan() || o.nan() || (self.infinite() && o.infinite()) || (self.zero() && o.zero()) {
            F32(0x7fc0_0000)
        } else if self.infinite() || o.zero() {
            F32::make(sign, 0x7f80_0000)
        } else if self.zero() || o.infinite() {
            F32::make(sign, 0)
        } else {
            F32::rounded(sign, self.units() * pow2(149), o.units())
        }
    }

    #[verifier::opaque]
    pub open spec fn is_lt(self, o: F32) -> bool {
        !self.nan() && !o.nan() && self.rank() < o.rank()
    }

    #[verifier::opaque]
    pub open spec fn is_le(self, o: F32) -> bool {
        !self.nan() && !o.nan() && self.rank() <= o.rank()
    }

    /// Numeric equality: the two zeros are equal, and a NaN equals nothing.
    #[verifier::opaque]
    pub open spec fn is_eq(self, o: F32) -> bool {
        !self.nan() && !o.nan() && self.rank() == o.rank()
    }

    #[verifier::opaque]
    pub open spec fn abs_value(self) -> F32 {
        if self.nan() {
            F32(0x7fc0_0000)
        } else {
            F32::make(false, self.magnitude())
        }
    }

    /// The larger of two numbers; a NaN gives way to the other.
    pub open spec fn larger(self, o: F32) -> F32 {
        if self.nan() || self.is_lt(o) {
            o
        } else {
            self
        }
    }

    /// The smaller of two numbers; a NaN gives way to the other.
    pub open spec fn smaller(self, o: F32) -> F32 {
        if self.nan() || o.is_lt(self) {
            o
        } else {
            self
        }
    }

    pub fn from_bits(bits: u32) -> (r: F32)
        ensures
            r == F32(bits),
    {
        F32(bits)
    }

    pub fn to_bits(self) -> (r: u32)
        ensures
            r == self.0,
    {
        self.0
    }

    pub(crate) fn sign_bit(self) -> (r: bool)
        ensures
            r == self.negative(),
    {
        self.0 >= 0x8000_0000
    }

    pub(crate) fn bits_abs(self) -> (r: u64)
        ensures
            r == self.magnitude(),
            r < 0x8000_0000,
    {
        if self.0 >= 0x8000_0000 {
            (self.0 - 0x8000_0000) as u64
        } else {
            self.0 as u64
        }
    }

    pub(crate) fn build(negative: bool, magnitude: u64) -> (r: F32)
        requires
            magnitude < 0x8000_0000,
        ensures
            r == F32::make(negative, magnitude as nat),
    {
        if negative {
            F32(magnitude as u32 + 0x8000_0000)
        } else {
            F32(magnitude as u32)
        }
    }

    pub fn is_nan(self) -> (r: bool)
        ensures
            r == self.nan(),
    {
        self.bits_abs() > 0x7f80_0000
    }

    pub fn lt(self, o: F32) -> (r: bool)
        ensures
            r == self.is_lt(o),
    {
        proof {
            reveal(F32::is_lt);
        }
        if self.is_nan() || o.is_nan() {
            return false;
        }
        let (a, b) = (self.bits_abs(), o.bits_abs());
        if self.sign_bit() {
            if o.sign_bit() {
                a > b
            } else {
                a > 0 || b > 0
            }
        } else {
            !o.sign_bit() && a < b
        }
    }

    pub fn le(self, o: F32) -> (r: bool)
        ensures
            r == self.is_le(o),
    {
        proof {
            reveal(F32::is_lt);
            reveal(F32::is_le);
        }
        !self.is_nan() && !o.is_nan() && !o.lt(self)
    }

    pub fn gt(self, o: F32) -> (r: bool)
        ensures
            r == o.is_lt(self),
    {
        o.lt(self)
    }

    pub fn ge(self, o: F32) -> (r: bool)
        ensures
            r == o.is_le(self),
    {
        o.le(self)
    }

    pub fn abs(self) -> (r: F32)
        ensures
            r == self.abs_value(),
    {
        proof {
            reveal(F32::abs_value);
        }
        if self.is_nan() {
            F32(0x7fc0_0000)
        } else {
            F32::build(false, self.bits_abs())
        }
    }

    pub fn negate(self) -> (r: F32)
        ensures
            r == self.spec_neg(),
    {
        proof {
            reveal(F32::spec_neg);
        }
        if self.is_nan() {
            F32(0x7fc0_0000)
        } else {
            F32::build(!self.sign_bit(), self.bits_abs())
        }
    }

    pub fn max(self, o: F32) -> (r: F32)
        ensures
            r == self.larger(o),
    {
        if self.is_nan() || self.lt(o) {
            o
        } else {
            self
        }
    }

    pub fn min(self, o: F32) -> (r: F32)
        ensures
            r == self.smaller(o),
    {
        if self.is_nan() || o.lt(self) {
            o
        } else {
            self
        }
    }

    /// The number in double precision.
    #[verifier::opaque]
    pub open spec fn widened(self) -> F64 {
        if self.nan() {
            F64(0x7ff8_0000_0000_0000)
        } else if self.infinite() {
            F64::make(self.negative(), 0x7ff0_0000_0000_0000)
        } else if self.zero() {
            F64::make(self.negative(), 0)
        } else {
            F64::rounded(self.negative(), self.units() * pow2(925), 1)
        }
    }

    pub fn to_f64(self) -> (r: F64)
        ensures
            r == self.widened(),
    {
        proof {
            reveal(F32::widened);
        }
        let a = self.bits_abs();
        if a > 0x7f80_0000 {
            F64(0x7ff8_0000_0000_0000)
        } else if a == 0x7f80_0000 {
            F64::build(self.sign_bit(), 0x7ff0_0000_0000_0000)
        } else if a == 0 {
            F64::build(self.sign_bit(), 0)
        } else {
            F64::build(self.sign_bit(), magnitude::widen_magnitude(a))
        }
    }
}

impl PartialEq for F32 {
    fn eq(&self, o: &F32) -> (r: bool) {
        proof {
            reveal(F32::is_eq);
        }
        let (a, b) = (self.bits_abs(), o.bits_abs());
        !self.is_nan() && !o.is_nan() && a == b && (a == 0 || self.sign_bit() == o.sign_bit())
    }
}

impl vstd::std_specs::cmp::PartialEqSpecImpl for F32 {
    open spec fn obeys_eq_spec() -> bool {
        true
    }

    open spec fn eq_spec(&self, o: &F32) -> bool {
        self.is_eq(*o)
    }
}

impl Default for F32 {
    fn default() -> (r: F32)
        ensures
            r == F32(0),
    {
        F32(0)
    }
}

impl core::ops::Neg for F32 {
    type Output = F32;

    fn neg(self) -> (r: F32) {
        self.negate()
    }
}

impl vstd::std_specs::ops::NegSpecImpl for F32 {
    open spec fn obeys_neg_spec() -> bool {
        true
    }

    open spec fn neg_req(self) -> bool {
        true
    }

    open spec fn neg_spec(self) -> F32 {
        self.spec_neg()
    }
}

impl core::ops::Add for F32 {
    type Output = F32;

    fn add(self, o: F32) -> (r: F32) {
        proof {
            reveal(F32::spec_add);
        }
        let (a, b) = (self.bits_abs(), o.bits_abs());
        let (s, t) = (self.sign_bit(), o.sign_bit());
        if a > 0x7f80_0000 || b > 0x7f80_0000 || (a == 0x7f80_0000 && b == 0x7f80_0000 && s != t) {
            return F32(0x7fc0_0000);
        }
        if a == 0x7f80_0000 {
            return self;
        }
        if b == 0x7f80_0000 {
            return o;
        }
        proof {
            if a > 0 {
                magnitude::lemma_units_grow(24, 0, a as nat);
            }
            if b > 0 {
                magnitude::lemma_units_grow(24, 0, b as nat);
            }
            assert(magnitude::units(24, 0) == 0) by {
                vstd::arithmetic::power2::lemma_pow2_pos((24 - 1) as nat);
            }
        }
        if s == t {
            if a == 0 && b == 0 {
                F32::build(s, 0)
            } else {
                F32::build(s, magnitude::add_magnitudes(24, 0x7f80_0000, a, b))
            }
        } else if a == b {
            F32::build(false, 0)
        } else if a > b {
            F32::build(s, magnitude::sub_magnitudes(24, 0x7f80_0000, a, b))
        } else {
            F32::build(t, magnitude::sub_magnitudes(24, 0x7f80_0000, b, a))
        }
    }
}

impl vstd::std_specs::ops::AddSpecImpl for F32 {
    open spec fn obeys_add_spec() -> bool {
        true
    }

    open spec fn add_req(self, o: F32) -> bool {
        true
    }

    open spec fn add_spec(self, o: F32) -> F32 {
        self + o
    }
}

impl core::ops::Sub for F32 {
    type Output = F32;

    fn sub(self, o: F32) -> (r: F32) {
        self + o.negate()
    }
}

impl vstd::std_specs::ops::SubSpecImpl for F32 {
    open spec fn obeys_sub_spec() -> bool {
        true
    }

    open spec fn sub_req(self, o: F32) -> bool {
        true
    }

    open spec fn sub_spec(self, o: F32) -> F32 {
        self - o
    }
}

impl core::ops::Mul for F32 {
    type Output = F32;

    fn mul(self, o: F32) -> (r: F32) {
        proof {
            reveal(F32::spec_mul);
        }
        let (a, b) = (self.bits_abs(), o.bits_abs());
        let s = self.sign_bit() != o.sign_bit();
        if a > 0x7f80_0000 || b > 0x7f80_0000 || (a == 0x7f80_0000 && b == 0) || (a == 0 && b == 0x7f80_0000) {
            F32(0x7fc0_0000)
        } else if a == 0x7f80_0000 || b == 0x7f80_0000 {
            F32::build(s, 0x7f80_0000)
        } else if a == 0 || b == 0 {
            F32::build(s, 0)
        } else {
            F32::build(s, magnitude::mul_magnitudes(24, 149, 0x7f80_0000, a, b))
        }
    }
}

impl vstd::std_specs::ops::MulSpecImpl for F32 {
    open spec fn obeys_mul_spec() -> bool {
        true
    }

    open spec fn mul_req(self, o: F32) -> bool {
        true
    }

    open spec fn mul_spec(self, o: F32) -> F32 {
        self * o
    }
}

impl core::ops::Div for F32 {
    type Output = F32;

    fn div(self, o: F32) -> (r: F32) {
        proof {
            reveal(F32::spec_euclidean_or_real_div);
        }
        let (a, b) = (self.bits_abs(), o.bits_abs());
        let s = self.sign_bit() != o.sign_bit();
        if a > 0x7f80_0000 || b > 0x7f80_0000 || (a == 0x7f80_0000 && b == 0x7f80_0000) || (a == 0 && b == 0) {
            F32(0x7fc0_0000)
        } else if a == 0x7f80_0000 || b == 0 {
            F32::build(s, 0x7f80_0000)
        } else if a == 0 || b == 0x7f80_0000 {
            F32::build(s, 0)
        } else {
            F32::build(s, magnitude::div_magnitudes(24, 149, 0x7f80_0000, a, b))
        }
    }
}

impl vstd::std_specs::ops::DivSpecImpl for F32 {
    open spec fn obeys_div_spec() -> bool {
        true
    }

    open spec fn div_req(self, o: F32) -> bool {
        true
    }

    open spec fn div_spec(self, o: F32) -> F32 {
        self / o
    }
}

/// The order of two finite numbers is the order of their values.
pub proof fn lemma_order_is_numeric(a: F32, b: F32)
    requires
        a.magnitude() < 0x7f80_0000,
        b.magnitude() < 0x7f80_0000,
    ensures
        a.is_lt(b) <==> a.value() < b.value(),
        a.is_le(b) <==> a.value() <= b.value(),
        a.is_eq(b) <==> a.value() == b.value(),
{
    reveal(F32::is_lt);
    reveal(F32::is_le);
    reveal(F32::is_eq);
    let (x, y) = (a.magnitude(), b.magnitude());
    vstd::arithmetic::power2::lemma_pow2_pos((24 - 1) as nat);
    if x > 0 {
        magnitude::lemma_units_grow(24, 0, x);
    }
    if y > 0 {
        magnitude::lemma_units_grow(24, 0, y);
    }
    if x < y {
        magnitude::lemma_units_grow(24, x, y);
    }
    if y < x {
        magnitude::lemma_units_grow(24, y, x);
    }
}

/// Subtraction is antisymmetric in magnitude.
pub proof fn lemma_difference_symmetric(a: F32, b: F32)
    ensures
        (a - b).abs_value() == (b - a).abs_value(),
{
    reveal(F32::spec_add);
    reveal(F32::spec_neg);
    reveal(F32::abs_value);
    let d = a.value() - b.value();
    if !a.nan() && !b.nan() && !a.infinite() && !b.infinite() && d != 0 {
        let n = if d > 0 { d as nat } else { (-d) as nat };
        lemma_round_in_range(n, 1);
    }
}

/// Rounding never leaves the format.
pub proof fn lemma_round_in_range(num: nat, den: nat)
    ensures
        rounding::round(24, 0x7f80_0000, num, den) <= 0x7f80_0000,
{
}

/// Multiplication and maximum do not depend on the order of numbers of one sign.
pub proof fn lemma_order_of_operands(a: F32, b: F32)
    ensures
        a * b == b * a,
        !a.nan() && !b.nan() ==> a.abs_value().larger(b.abs_value()) == b.abs_value().larger(
            a.abs_value(),
        ),
{
    reveal(F32::spec_mul);
    reveal(F32::abs_value);
    reveal(F32::is_lt);
    assert(a.units() * b.units() == b.units() * a.units()) by (nonlinear_arith);
}

/// An absolute value is the number's own magnitude, and not negative.
pub proof fn lemma_abs(a: F32)
    requires
        !a.nan(),
    ensures
        a.abs_value().rank() == a.magnitude(),
        a.abs_value().magnitude() == a.magnitude(),
        !a.abs_value().nan(),
        !a.abs_value().negative(),
{
    reveal(F32::abs_value);
}

/// The rank of a rounded sum.
pub proof fn lemma_sum(a: F32, b: F32)
    requires
        !a.nan(),
        !b.nan(),
        a.magnitude() < 0x7f80_0000,
        b.magnitude() < 0x7f80_0000,
    ensures
        ({
            let s = a.value() + b.value();
            let m = rounding::round(24, 0x7f80_0000, (if s < 0 { -s } else { s }) as nat, 1);
            &&& m <= 0x7f80_0000
            &&& (a + b).rank() == (if s < 0 {
                -(m as int)
            } else {
                m as int
            })
            &&& !(a + b).nan()
        }),
{
    reveal(F32::spec_add);
    let s = a.value() + b.value();
    if s == 0 {
        exact::lemma_round_of_units(24, 0x7f80_0000, 0);
        vstd::arithmetic::power2::lemma_pow2_pos(23);
    } else {
        lemma_round_in_range((if s < 0 { -s } else { s }) as nat, 1);
    }
}

pub(crate) proof fn lemma_negated(c: F32)
    requires
        !c.nan(),
    ensures
        c.spec_neg().magnitude() == c.magnitude(),
        !c.spec_neg().nan(),
        c.magnitude() < 0x7f80_0000 ==> c.spec_neg().value() == -c.value(),
        c.spec_neg().rank() == -c.rank(),
{
    reveal(F32::spec_neg);
}

/// Of three ascending numbers above 0 the outer two lie at least as far apart as the last two.
pub proof fn lemma_difference_grows(a: F32, b: F32, c: F32)
    requires
        !a.nan(),
        !b.nan(),
        !c.nan(),
        0 < a.rank() < b.rank() < c.rank(),
    ensures
        (c - b).abs_value().rank() <= (c - a).abs_value().rank(),
        !(c - b).nan(),
        !(c - a).nan(),
{
    lemma_negated(a);
    lemma_negated(b);
    lemma_negated(c);
    lemma_spread(a, b, c);
}

proof fn lemma_spread(a: F32, b: F32, c: F32)
    requires
        !a.nan(),
        !b.nan(),
        !c.nan(),
        a.magnitude() < 0x7f80_0000,
        b.magnitude() < 0x7f80_0000,
        a.rank() <= b.rank() <= c.rank(),
    ensures
        (c - b).abs_value().rank() <= (c - a).abs_value().rank(),
        !(c - b).nan(),
        !(c - a).nan(),
{
    lemma_negated(a);
    lemma_negated(b);
    if c.infinite() {
        reveal(F32::spec_add);
        lemma_abs(c);
    } else {
        lemma_sum(c, a.spec_neg());
        lemma_sum(c, b.spec_neg());
        lemma_order_is_numeric(a, b);
        lemma_order_is_numeric(b, c);
        reveal(F32::is_le);
        lemma_abs(c - a);
        lemma_abs(c - b);
        let (x, y) = (c.value() - b.value(), c.value() - a.value());
        assert(0 <= x <= y);
        exact::lemma_round_grows(24, 0x7f80_0000, x as nat, y as nat, 1);
    }
}

/// Of three ascending numbers below 0 the outer two lie at least as far apart as the first two.
pub proof fn lemma_difference_grows_down(a: F32, b: F32, c: F32)
    requires
        !a.nan(),
        !b.nan(),
        !c.nan(),
        a.rank() < b.rank() < c.rank() < 0,
    ensures
        (a - b).abs_value().rank() <= (a - c).abs_value().rank(),
        !(a - b).nan(),
        !(a - c).nan(),
{
    lemma_negated(b);
    lemma_negated(c);
    if a.infinite() {
        reveal(F32::spec_add);
        lemma_abs(a);
    } else {
        lemma_sum(a, b.spec_neg());
        lemma_sum(a, c.spec_neg());
        lemma_order_is_numeric(a, b);
        lemma_order_is_numeric(b, c);
        reveal(F32::is_le);
        lemma_abs(a - b);
        lemma_abs(a - c);
        let (x, y) = (b.value() - a.value(), c.value() - a.value());
        exact::lemma_round_grows(24, 0x7f80_0000, x as nat, y as nat, 1);
    }
}

/// A number below 0 and one above lie at least as far apart as either is from 0.
pub proof fn lemma_wide_difference(a: F32, c: F32)
    requires
        !a.nan(),
        !c.nan(),
        a.rank() < 0 < c.rank(),
    ensures
        !(a - c).nan(),
        (a - c).abs_value().rank() >= a.magnitude(),
        (a - c).abs_value().rank() >= c.magnitude(),
{
    lemma_negated(c);
    let n = c.spec_neg();
    if a.infinite() || c.infinite() {
        reveal(F32::spec_add);
        lemma_abs(a - c);
    } else {
        lemma_sum(a, n);
        lemma_abs(a - c);
        let (x, y) = (a.units(), c.units());
        vstd::arithmetic::power2::lemma_pow2_pos(23);
        assert(a.value() + n.value() == -((x + y) as int));
        exact::lemma_round_beside(24, 0x7f80_0000, x + y, 1, a.magnitude());
        exact::lemma_round_beside(24, 0x7f80_0000, x + y, 1, c.magnitude());
    }
}

/// A number not above 1 times another is not above that other, both at least 0.
pub proof fn lemma_part_is_smaller(part: F32, whole: F32)
    requires
        !whole.nan(),
        !whole.negative(),
        0 < part.0 <= 0x3f80_0000,
    ensures
        !(part * whole).nan(),
        (part * whole).rank() <= whole.rank(),
{
    reveal(F32::spec_mul);
    if !whole.infinite() && !whole.zero() {
        lemma_units_of_one(part);
        let (x, y, one) = (part.units(), whole.units(), pow2(149));
        vstd::arithmetic::power2::lemma_pow2_pos(149);
        assert(x * y <= y * one) by (nonlinear_arith)
            requires
                x <= one,
        ;
        exact::lemma_round_beside(24, 0x7f80_0000, x * y, one, whole.magnitude());
    }
}

proof fn lemma_units_of_one(part: F32)
    requires
        0 < part.0 <= 0x3f80_0000,
    ensures
        part.units() <= pow2(149),
{
    let h = pow2(23);
    vstd::arithmetic::power2::lemma2_to64();
    assert(h == 0x80_0000);
    assert(0x3f80_0000nat / 0x80_0000nat == 127 && 0x3f80_0000nat % 0x80_0000nat == 0);
    vstd::arithmetic::power2::lemma_pow2_adds(23, 126);
    assert(magnitude::units(24, 0x3f80_0000) == pow2(149));
    if part.0 < 0x3f80_0000 {
        magnitude::lemma_units_grow(24, part.0 as nat, 0x3f80_0000);
    }
}

/// A normal number is twice the one whose exponent is one less.
proof fn lemma_half(whole: F32)
    requires
        0x0100_0000 <= whole.0 < 0x7f80_0000,
    ensures
        whole.units() == 2 * F32((whole.0 - 0x0080_0000) as u32).units(),
{
    let h = pow2(23);
    vstd::arithmetic::power2::lemma2_to64();
    assert(h == 0x80_0000);
    let b = whole.0 as nat;
    let c = (b - 0x80_0000) as nat;
    let (q, r) = (b / 0x80_0000, b % 0x80_0000);
    assert(c / 0x80_0000 == q - 1 && c % 0x80_0000 == r);
    let n = (q - 2) as nat;
    vstd::arithmetic::power2::lemma_pow2_adds(n, 1);
    assert((h + r) * (pow2(n) * 2) == 2 * ((h + r) * pow2(n))) by (nonlinear_arith);
}

/// A number far below another, above 0, lies further from it than a small part of it.
pub proof fn lemma_far_below(x: F32, whole: F32, part: F32)
    requires
        !x.nan(),
        0x0100_0000 <= whole.0 < 0x7f80_0000,
        x.magnitude() <= whole.0 - 0x0080_0000,
        0 < part.0 <= 0x3f00_0000,
    ensures
        !(x - whole).abs_value().is_lt(part * whole),
        x.is_lt(whole),
        !(whole - x).abs_value().is_lt(part * whole),
{
    reveal(F32::is_lt);
    reveal(F32::spec_mul);
    let half = F32((whole.0 - 0x0080_0000) as u32);
    lemma_half(whole);
    lemma_negated(whole);
    lemma_sum(x, whole.spec_neg());
    lemma_abs(x - whole);
    lemma_difference_symmetric(x, whole);
    lemma_order_is_numeric(x, half);
    reveal(F32::is_le);
    let d = whole.value() - x.value();
    assert(d >= half.units());
    exact::lemma_round_beside(24, 0x7f80_0000, d as nat, 1, half.magnitude());
    lemma_units_of_half(part);
    let (y, u, one) = (part.units(), half.units(), pow2(149));
    vstd::arithmetic::power2::lemma_pow2_pos(149);
    assert(y * whole.units() <= u * one) by (nonlinear_arith)
        requires
            2 * y <= one,
            whole.units() == 2 * u,
    ;
    exact::lemma_round_beside(24, 0x7f80_0000, y * whole.units(), one, half.magnitude());
}

/// A number far above the opposite of another lies further from it than a small part of it.
pub proof fn lemma_far_above(x: F32, whole: F32, part: F32)
    requires
        !x.nan(),
        0x0100_0000 <= whole.0 < 0x7f80_0000,
        x.magnitude() <= whole.0 - 0x0080_0000,
        0 < part.0 <= 0x3f00_0000,
    ensures
        ({
            let opposite = F32((whole.0 + 0x8000_0000) as u32);
            &&& !(x - opposite).abs_value().is_lt(part * whole)
            &&& opposite.is_lt(x)
        }),
{
    reveal(F32::is_lt);
    let opposite = F32((whole.0 + 0x8000_0000) as u32);
    lemma_negated(x);
    lemma_negated(opposite);
    let m = x.spec_neg();
    lemma_far_below(m, whole, part);
    lemma_negated(whole);
    lemma_sum(x, opposite.spec_neg());
    lemma_sum(m, whole.spec_neg());
    lemma_abs(x - opposite);
    lemma_abs(m - whole);
}

proof fn lemma_units_of_half(part: F32)
    requires
        0 < part.0 <= 0x3f00_0000,
    ensures
        2 * part.units() <= pow2(149),
{
    lemma_half(F32(0x3f80_0000));
    lemma_units_of_one(F32(0x3f80_0000));
    if part.0 < 0x3f00_0000 {
        magnitude::lemma_units_grow(24, part.0 as nat, 0x3f00_0000);
    }
}

} // verus!
