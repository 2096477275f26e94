//! Double precision binary floating-point numbers, held as their bits.
//!
//! Each operation is the exact result on the operands' values rounded once to nearest, ties to
//! even; a result that is not a number is always the one pattern `0x7ff8_0000_0000_0000`.

use vstd::prelude::*;
use vstd::arithmetic::power2::pow2;
use crate::magnitude;
use crate::rounding;
use crate::float32::F32;

verus! {

/// The bits of a double precision number.
#[derive(Clone, Copy, Debug)]
pub struct F64(pub u64);

impl F64 {
    pub open spec fn negative(self) -> bool {
        self.0 >= 0x8000_0000_0000_0000
    }

    /// The bits without the sign.
    pub open spec fn magnitude(self) -> nat {
        if self.negative() {
            (self.0 - 0x8000_0000_0000_0000) as nat
        } else {
            self.0 as nat
        }
    }

    pub open spec fn nan(self) -> bool {
        self.magnitude() > 0x7ff0_0000_0000_0000
    }

    pub open spec fn infinite(self) -> bool {
        self.magnitude() == 0x7ff0_0000_0000_0000
    }

    pub open spec fn zero(self) -> bool {
        self.magnitude() == 0
    }

    /// The absolute value of a finite number, in units of `2^-1074`.
    pub open spec fn units(self) -> nat {
        magnitude::units(53, self.magnitude())
    }

    /// The value of a finite number, in units of `2^-1074`.
    pub open spec fn value(self) -> int {
        if self.negative() {
            -(self.units() as int)
        } else {
            self.units() as int
        }
    }

    /// A number's place in the numeric order; both zeros take place 0.
    pub open spec fn rank(self) -> int {
        if self.negative() {
            -(self.magnitude() as int)
        } else {
            self.magnitude() as int
        }
    }

    pub open spec fn make(negative: bool, magnitude: nat) -> F64 {
        F64((magnitude + if negative { 0x8000_0000_0000_0000int } else { 0 }) as u64)
    }

    /// `num / den` units rounded, with a sign.
    pub open spec fn rounded(negative: bool, num: nat, den: nat) -> F64 {
        F64::make(negative, rounding::round(53, 0x7ff0_0000_0000_0000, num, den))
    }

    #[verifier::opaque]
    pub open spec fn spec_add(self, o: F64) -> F64 {
        if self.nan() || o.nan() || (self.infinite() && o.infinite() && self.negative() != o.negative()) {
            F64(0x7ff8_0000_0000_0000)
        } else if self.infinite() {
            self
        } else if o.infinite() {
            o
        } else {
            let s = self.value() + o.value();
            if s > 0 {
                F64::rounded(false, s as nat, 1)
            } else if s < 0 {
                F64::rounded(true, (-s) as nat, 1)
            } else {
                F64::make(self.negative() && o.negative(), 0)
            }
        }
    }

    #[verifier::opaque]
    pub open spec fn spec_neg(self) -> F64 {
        if self.nan() {
            F64(0x7ff8_0000_0000_0000)
        } else {
            F64::make(!self.negative(), self.magnitude())
        }
    }

    pub open spec fn spec_sub(self, o: F64) -> F64 {
        self + o.spec_neg()
    }

    #[verifier::opaque]
    pub open spec fn spec_mul(self, o: F64) -> F64 {
        let sign = self.negative() != o.negative();
        if self.nan() || o.nan() || (self.infinite() && o.zero()) || (self.zero() && o.infinite()) {
            F64(0x7ff8_0000_0000_0000)
        } else if self.infinite() || o.infinite() {
            F64::make(sign, 0x7ff0_0000_0000_0000)
        } else if self.zero() || o.zero() {
            F64::make(sign, 0)
        } else {
            F64::rounded(sign, self.units() * o.units(), pow2(1074))
        }
    }

    /// `self / o` in a specification.
    #[verifier::opaque]
    pub open spec fn spec_euclidean_or_real_div(self, o: F64) -> F64 {
        let sign = self.negative() != o.negative();
        if self.nan() || o.nan() || (self.infinite() && o.infinite()) || (self.zero() && o.zero()) {
            F64(0x7ff8_0000_0000_0000)
        } else if self.infinite() || o.zero() {
            F64::make(sign, 0x7ff0_0000_0000_0000)
        } else if self.zero() || o.infinite() {
            F64::make(sign, 0)
        } else {
            F64::rounded(sign, self.units() * pow2(1074), o.units())
        }
    }

    #[verifier::opaque]
    pub open spec fn is_lt(self, o: F64) -> bool {
        !self.nan() && !o.nan() && self.rank() < o.rank()
    }

    #[verifier::opaque]
    pub open spec fn is_le(self, o: F64) -> bool {
        !self.nan() && !o.nan() && self.rank() <= o.rank()
    }

    /// Numeric equality: the two zeros are equal, and a NaN equals nothing.
    #[verifier::opaque]
    pub open spec fn is_eq(self, o: F64) -> bool {
        !self.nan() && !o.nan() && self.rank() == o.rank()
    }

    #[verifier::opaque]
    pub open spec fn abs_value(self) -> F64 {
        if self.nan() {
            F64(0x7ff8_0000_0000_0000)
        } else {
            F64::make(false, self.magnitude())
        }
    }

    /// The larger of two numbers; a NaN gives way to the other.
    pub open spec fn larger(self, o: F64) -> F64 {
        if self.nan() || self.is_lt(o) {
            o
        } else {
            self
        }
    }

    /// The smaller of two numbers; a NaN gives way to the other.
    pub open spec fn smaller(self, o: F64) -> F64 {
        if self.nan() || o.is_lt(self) {
            o
        } else {
            self
        }
    }

    pub fn from_bits(bits: u64) -> (r: F64)
        ensures
            r == F64(bits),
    {
        F64(bits)
    }

    pub fn to_bits(self) -> (r: u64)
        ensures
            r == self.0,
    {
        self.0
    }

    pub(crate) fn sign_bit(self) -> (r: bool)
        ensures
            r == self.negative(),
    {
        self.0 >= 0x8000_0000_0000_0000
    }

    pub(crate) fn bits_abs(self) -> (r: u64)
        ensures
            r == self.magnitude(),
            r < 0x8000_0000_0000_0000,
    {
        if self.0 >= 0x8000_0000_0000_0000 {
            (self.0 - 0x8000_0000_0000_0000) as u64
        } else {
            self.0 as u64
        }
    }

    pub(crate) fn build(negative: bool, magnitude: u64) -> (r: F64)
        requires
            magnitude < 0x8000_0000_0000_0000,
        ensures
            r == F64::make(negative, magnitude as nat),
    {
        if negative {
            F64(magnitude as u64 + 0x8000_0000_0000_0000)
        } else {
            F64(magnitude as u64)
        }
    }

    pub fn is_nan(self) -> (r: bool)
        ensures
            r == self.nan(),
    {
        self.bits_abs() > 0x7ff0_0000_0000_0000
    }

    pub fn lt(self, o: F64) -> (r: bool)
        ensures
            r == self.is_lt(o),
    {
        proof {
            reveal(F64::is_lt);
        }
        if self.is_nan() || o.is_nan() {
            return false;
        }
        let (a, b) = (self.bits_abs(), o.bits_abs());
        if self.sign_bit() {
            if o.sign_bit() {
                a > b
            } else {
                a > 0 || b > 0
            }
        } else {
            !o.sign_bit() && a < b
        }
    }

    pub fn le(self, o: F64) -> (r: bool)
        ensures
            r == self.is_le(o),
    {
        proof {
            reveal(F64::is_lt);
            reveal(F64::is_le);
        }
        !self.is_nan() && !o.is_nan() && !o.lt(self)
    }

    pub fn gt(self, o: F64) -> (r: bool)
        ensures
            r == o.is_lt(self),
    {
        o.lt(self)
    }

    pub fn ge(self, o: F64) -> (r: bool)
        ensures
            r == o.is_le(self),
    {
        o.le(self)
    }

    pub fn abs(self) -> (r: F64)
        ensures
            r == self.abs_value(),
    {
        proof {
            reveal(F64::abs_value);
        }
        if self.is_nan() {
            F64(0x7ff8_0000_0000_0000)
        } else {
            F64::build(false, self.bits_abs())
        }
    }

    pub fn negate(self) -> (r: F64)
        ensures
            r == self.spec_neg(),
    {
        proof {
            reveal(F64::spec_neg);
        }
        if self.is_nan() {
            F64(0x7ff8_0000_0000_0000)
        } else {
            F64::build(!self.sign_bit(), self.bits_abs())
        }
    }

    pub fn max(self, o: F64) -> (r: F64)
        ensures
            r == self.larger(o),
    {
        if self.is_nan() || self.lt(o) {
            o
        } else {
            self
        }
    }

    pub fn min(self, o: F64) -> (r: F64)
        ensures
            r == self.smaller(o),
    {
        if self.is_nan() || o.lt(self) {
            o
        } else {
            self
        }
    }

    /// The number rounded to single precision.
    #[verifier::opaque]
    pub open spec fn narrowed(self) -> F32 {
        if self.nan() {
            F32(0x7fc0_0000)
        } else if self.infinite() {
            F32::make(self.negative(), 0x7f80_0000)
        } else if self.zero() {
            F32::make(self.negative(), 0)
        } else {
            F32::rounded(self.negative(), self.units(), pow2(925))
        }
    }

    pub fn to_f32(self) -> (r: F32)
        ensures
            r == self.narrowed(),
    {
        proof {
            reveal(F64::narrowed);
        }
        let a = self.bits_abs();
        if a > 0x7ff0_0000_0000_0000 {
            F32(0x7fc0_0000)
        } else if a == 0x7ff0_0000_0000_0000 {
            F32::build(self.sign_bit(), 0x7f80_0000)
        } else if a == 0 {
            F32::build(self.sign_bit(), 0)
        } else {
            F32::build(self.sign_bit(), magnitude::narrow_magnitude(a))
        }
    }

    #[verifier::opaque]
    pub open spec fn square_root(self) -> F64 {
        if self.nan() || (self.negative() && !self.zero()) {
            F64(0x7ff8_0000_0000_0000)
        } else if self.infinite() || self.zero() {
            self
        } else {
            F64::make(false, magnitude::round_sqrt(self.units()))
        }
    }

    pub fn sqrt(self) -> (r: F64)
        ensures
            r == self.square_root(),
    {
        proof {
            reveal(F64::square_root);
        }
        let a = self.bits_abs();
        if a > 0x7ff0_0000_0000_0000 || (self.sign_bit() && a > 0) {
            F64(0x7ff8_0000_0000_0000)
        } else if a == 0x7ff0_0000_0000_0000 || a == 0 {
            self
        } else {
            F64::build(false, magnitude::sqrt_magnitude(a))
        }
    }
}

impl PartialEq for F64 {
    fn eq(&self, o: &F64) -> (r: bool) {
        proof {
            reveal(F64::is_eq);
        }
        let (a, b) = (self.bits_abs(), o.bits_abs());
        !self.is_nan() && !o.is_nan() && a == b && (a == 0 || self.sign_bit() == o.sign_bit())
    }
}

impl vstd::std_specs::cmp::PartialEqSpecImpl for F64 {
    open spec fn obeys_eq_spec() -> bool {
        true
    }

    open spec fn eq_spec(&self, o: &F64) -> bool {
        self.is_eq(*o)
    }
}

impl Default for F64 {
    fn default() -> (r: F64)
        ensures
            r == F64(0),
    {
        F64(0)
    }
}

impl core::ops::Neg for F64 {
    type Output = F64;

    fn neg(self) -> (r: F64) {
        self.negate()
    }
}

impl vstd::std_specs::ops::NegSpecImpl for F64 {
    open spec fn obeys_neg_spec() -> bool {
        true
    }

    open spec fn neg_req(self) -> bool {
        true
    }

    open spec fn neg_spec(self) -> F64 {
        self.spec_neg()
    }
}

impl core::ops::Add for F64 {
    type Output = F64;

    fn add(self, o: F64) -> (r: F64) {
        proof {
            reveal(F64::spec_add);
        }
        let (a, b) = (self.bits_abs(), o.bits_abs());
        let (s, t) = (self.sign_bit(), o.sign_bit());
        if a > 0x7ff0_0000_0000_0000 || b > 0x7ff0_0000_0000_0000 || (a == 0x7ff0_0000_0000_0000 && b == 0x7ff0_0000_0000_0000 && s != t) {
            return F64(0x7ff8_0000_0000_0000);
        }
        if a == 0x7ff0_0000_0000_0000 {
            return self;
        }
        if b == 0x7ff0_0000_0000_0000 {
            return o;
        }
        proof {
            if a > 0 {
                magnitude::lemma_units_grow(53, 0, a as nat);
            }
            if b > 0 {
                magnitude::lemma_units_grow(53, 0, b as nat);
            }
            assert(magnitude::units(53, 0) == 0) by {
                vstd::arithmetic::power2::lemma_pow2_pos((53 - 1) as nat);
            }
        }
        if s == t {
            if a == 0 && b == 0 {
                F64::build(s, 0)
            } else {
                F64::build(s, magnitude::add_magnitudes(53, 0x7ff0_0000_0000_0000, a, b))
            }
        } else if a == b {
            F64::build(false, 0)
        } else if a > b {
            F64::build(s, magnitude::sub_magnitudes(53, 0x7ff0_0000_0000_0000, a, b))
        } else {
            F64::build(t, magnitude::sub_magnitudes(53, 0x7ff0_0000_0000_0000, b, a))
        }
    }
}

impl vstd::std_specs::ops::AddSpecImpl for F64 {
    open spec fn obeys_add_spec() -> bool {
        true
    }

    open spec fn add_req(self, o: F64) -> bool {
        true
    }

    open spec fn add_spec(self, o: F64) -> F64 {
        self + o
    }
}

impl core::ops::Sub for F64 {
    type Output = F64;

    fn sub(self, o: F64) -> (r: F64) {
        self + o.negate()
    }
}

impl vstd::std_specs::ops::SubSpecImpl for F64 {
    open spec fn obeys_sub_spec() -> bool {
        true
    }

    open spec fn sub_req(self, o: F64) -> bool {
        true
    }

    open spec fn sub_spec(self, o: F64) -> F64 {
        self - o
    }
}

impl core::ops::Mul for F64 {
    type Output = F64;

    fn mul(self, o: F64) -> (r: F64) {
        proof {
            reveal(F64::spec_mul);
        }
        let (a, b) = (self.bits_abs(), o.bits_abs());
        let s = self.sign_bit() != o.sign_bit();
        if a > 0x7ff0_0000_0000_0000 || b > 0x7ff0_0000_0000_0000 || (a == 0x7ff0_0000_0000_0000 && b == 0) || (a == 0 && b == 0x7ff0_0000_0000_0000) {
            F64(0x7ff8_0000_0000_0000)
        } else if a == 0x7ff0_0000_0000_0000 || b == 0x7ff0_0000_0000_0000 {
            F64::build(s, 0x7ff0_0000_0000_0000)
        } else if a == 0 || b == 0 {
            F64::build(s, 0)
        } else {
            F64::build(s, magnitude::mul_magnitudes(53, 1074, 0x7ff0_0000_0000_0000, a, b))
        }
    }
}

impl vstd::std_specs::ops::MulSpecImpl for F64 {
    open spec fn obeys_mul_spec() -> bool {
        true
    }

    open spec fn mul_req(self, o: F64) -> bool {
        true
    }

    open spec fn mul_spec(self, o: F64) -> F64 {
        self * o
    }
}

impl core::ops::Div for F64 {
    type Output = F64;

    fn div(self, o: F64) -> (r: F64) {
        proof {
            reveal(F64::spec_euclidean_or_real_div);
        }
        let (a, b) = (self.bits_abs(), o.bits_abs());
        let s = self.sign_bit() != o.sign_bit();
        if a > 0x7ff0_0000_0000_0000 || b > 0x7ff0_0000_0000_0000 || (a == 0x7ff0_0000_0000_0000 && b == 0x7ff0_0000_0000_0000) || (a == 0 && b == 0) {
            F64(0x7ff8_0000_0000_0000)
        } else if a == 0x7ff0_0000_0000_0000 || b == 0 {
            F64::build(s, 0x7ff0_0000_0000_0000)
        } else if a == 0 || b == 0x7ff0_0000_0000_0000 {
            F64::build(s, 0)
        } else {
            F64::build(s, magnitude::div_magnitudes(53, 1074, 0x7ff0_0000_0000_0000, a, b))
        }
    }
}

impl vstd::std_specs::ops::DivSpecImpl for F64 {
    open spec fn obeys_div_spec() -> bool {
        true
    }

    open spec fn div_req(self, o: F64) -> bool {
        true
    }

    open spec fn div_spec(self, o: F64) -> F64 {
        self / o
    }
}

/// The order of two finite numbers is the order of their values.
pub proof fn lemma_order_is_numeric(a: F64, b: F64)
    requires
        a.magnitude() < 0x7ff0_0000_0000_0000,
        b.magnitude() < 0x7ff0_0000_0000_0000,
    ensures
        a.is_lt(b) <==> a.value() < b.value(),
        a.is_le(b) <==> a.value() <= b.value(),
        a.is_eq(b) <==> a.value() == b.value(),
{
    reveal(F64::is_lt);
    reveal(F64::is_le);
    reveal(F64::is_eq);
    let (x, y) = (a.magnitude(), b.magnitude());
    vstd::arithmetic::power2::lemma_pow2_pos((53 - 1) as nat);
    if x > 0 {
        magnitude::lemma_units_grow(53, 0, x);
    }
    if y > 0 {
        magnitude::lemma_units_grow(53, 0, y);
    }
    if x < y {
        magnitude::lemma_units_grow(53, x, y);
    }
    if y < x {
        magnitude::lemma_units_grow(53, y, x);
    }
}


} // verus!
