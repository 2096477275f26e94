//! Fuzzy float comparison, which every delay, slew, arrival, required and slack comparison goes
//! through.
//!
//! Two values are equal when numerically equal; when one is zero, when the other's magnitude is
//! under 1e-15; otherwise when they differ by less than 1e-6 of the larger magnitude, the product
//! rounded to single precision. `greater` and `less` are strict and not equal. Equality is not
//! transitive, so a merge over several candidates depends on the order it sees them in.

use vstd::prelude::*;
use crate::float32;
use crate::float32::F32;

verus! {

/// 1e-15.
pub const FLOAT_EQUAL_TOLERANCE: u32 = 0x2690_1d7d;

/// 1e-6.
pub const RELATIVE_TOLERANCE: u32 = 0x3586_37bd;

pub open spec fn close(v1: F32, v2: F32) -> bool {
    if v1.is_eq(v2) {
        true
    } else if v1.is_eq(F32(0)) {
        v2.abs_value().is_lt(F32(FLOAT_EQUAL_TOLERANCE))
    } else if v2.is_eq(F32(0)) {
        v1.abs_value().is_lt(F32(FLOAT_EQUAL_TOLERANCE))
    } else {
        (v1 - v2).abs_value().is_lt(F32(RELATIVE_TOLERANCE) * v1.abs_value().larger(v2.abs_value()))
    }
}

pub open spec fn below(v1: F32, v2: F32) -> bool {
    v1.is_lt(v2) && !close(v1, v2)
}

pub open spec fn above(v1: F32, v2: F32) -> bool {
    v2.is_lt(v1) && !close(v1, v2)
}

/// Fuzzy equality.
pub fn equal(v1: F32, v2: F32) -> (r: bool)
    ensures
        r == close(v1, v2),
{
    if v1 == v2 {
        true
    } else if v1 == F32(0) {
        v2.abs().lt(F32(FLOAT_EQUAL_TOLERANCE))
    } else if v2 == F32(0) {
        v1.abs().lt(F32(FLOAT_EQUAL_TOLERANCE))
    } else {
        (v1 - v2).abs().lt(F32(RELATIVE_TOLERANCE) * v1.abs().max(v2.abs()))
    }
}

/// Strictly less and not fuzzily equal.
pub fn less(v1: F32, v2: F32) -> (r: bool)
    ensures
        r == below(v1, v2),
{
    v1.lt(v2) && !equal(v1, v2)
}

/// Strictly greater and not fuzzily equal.
pub fn greater(v1: F32, v2: F32) -> (r: bool)
    ensures
        r == above(v1, v2),
{
    v1.gt(v2) && !equal(v1, v2)
}

/// Fuzzy equality does not depend on the order of its operands.
pub proof fn lemma_close_symmetric(v1: F32, v2: F32)
    ensures
        close(v1, v2) == close(v2, v1),
{
    reveal(F32::is_eq);
    reveal(F32::is_lt);
    float32::lemma_difference_symmetric(v1, v2);
    float32::lemma_order_of_operands(v1, v2);
    if v1.nan() || v2.nan() {
        reveal(F32::spec_add);
        reveal(F32::spec_neg);
        reveal(F32::abs_value);
    }
}

/// One value is greater exactly when the other is less.
pub proof fn lemma_greater_is_less(v1: F32, v2: F32)
    ensures
        above(v1, v2) == below(v2, v1),
{
    lemma_close_symmetric(v1, v2);
}

/// Of two numbers exactly one of less, fuzzily equal and greater holds, and a number is fuzzily
/// equal to itself; of a nan none holds.
pub proof fn lemma_trichotomy(v1: F32, v2: F32)
    ensures
        !(below(v1, v2) && close(v1, v2)),
        !(above(v1, v2) && close(v1, v2)),
        !(below(v1, v2) && above(v1, v2)),
        !v1.nan() && !v2.nan() ==> below(v1, v2) || close(v1, v2) || above(v1, v2),
        v1.nan() || v2.nan() ==> !below(v1, v2) && !close(v1, v2) && !above(v1, v2),
        !v1.nan() ==> close(v1, v1),
{
    reveal(F32::is_eq);
    reveal(F32::is_lt);
    if v1.nan() || v2.nan() {
        reveal(F32::spec_add);
        reveal(F32::spec_neg);
        reveal(F32::abs_value);
    }
}

/// Less is transitive, though fuzzy equality is not.
pub proof fn lemma_less_is_transitive(a: F32, b: F32, c: F32)
    requires
        below(a, b),
        below(b, c),
    ensures
        below(a, c),
{
    reveal(F32::is_lt);
    reveal(F32::is_eq);
    let tolerance = F32(RELATIVE_TOLERANCE);
    float32::lemma_abs(a);
    float32::lemma_abs(b);
    float32::lemma_abs(c);
    let widest = a.abs_value().larger(c.abs_value());
    if a.zero() || c.zero() {
    } else {
        float32::lemma_part_is_smaller(tolerance, widest);
        if a.rank() < 0 && c.rank() > 0 {
            // The difference is at least as large as either.
            float32::lemma_wide_difference(a, c);
        } else if a.rank() > 0 {
            float32::lemma_difference_grows(a, b, c);
            float32::lemma_difference_symmetric(a, c);
            float32::lemma_difference_symmetric(b, c);
            float32::lemma_abs(c - a);
            float32::lemma_abs(c - b);
            assert(widest == b.abs_value().larger(c.abs_value()));
        } else {
            float32::lemma_difference_grows_down(a, b, c);
            float32::lemma_abs(a - c);
            float32::lemma_abs(a - b);
            assert(widest == a.abs_value().larger(b.abs_value()));
        }
    }
}

/// Greater is transitive.
pub proof fn lemma_greater_is_transitive(a: F32, b: F32, c: F32)
    requires
        above(a, b),
        above(b, c),
    ensures
        above(a, c),
{
    lemma_greater_is_less(a, b);
    lemma_greater_is_less(b, c);
    lemma_less_is_transitive(c, b, a);
    lemma_greater_is_less(a, c);
}

/// The initial values of a min/max merge, 1e30 and -1e30, are beaten by any number up to half their
/// size.
pub proof fn lemma_initial_values_are_beaten(x: F32)
    requires
        x.magnitude() <= 0x70c9_f2ca,
    ensures
        below(x, F32(0x7149_f2ca)),
        above(x, F32(0xf149_f2ca)),
{
    reveal(F32::is_lt);
    reveal(F32::is_eq);
    let (most, least) = (F32(0x7149_f2ca), F32(0xf149_f2ca));
    let part = F32(RELATIVE_TOLERANCE);
    float32::lemma_abs(x);
    float32::lemma_abs(most);
    float32::lemma_abs(least);
    float32::lemma_far_below(x, most, part);
    assert(x.abs_value().larger(most.abs_value()) == most) by {
        reveal(F32::abs_value);
    }
    float32::lemma_far_above(x, most, part);
    assert(x.abs_value().larger(least.abs_value()) == most) by {
        reveal(F32::abs_value);
    }
}

} // verus!
