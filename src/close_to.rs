//! Approximate equality of floating-point values.
//!
//! Two values are close when their magnitudes are equal (this covers the
//! infinities), or, near zero, when their distance is below `epsilon` times the
//! smallest normal value, or else when their relative error
//! `|a - b| / min(a + b, MAX)` is below `epsilon`. As in IEEE-754 arithmetic,
//! the distance, the sum, the product and the quotient are each rounded to
//! nearest, ties to even, into the format of the values.
use vstd::prelude::*;
use vstd::arithmetic::power2::{pow2, lemma_pow2_adds, lemma_pow2_unfold, lemma_pow2_strictly_increases};
use crate::bignat::BigNat;
use crate::ieee::{
    class, class_of, fits, frac_bits, frac_scale_of, is_negative, lemma_frac_scale, lemma_magnitude_bound,
    magnitude, max_magnitude, max_magnitude_of, min_normal, normal_shift, sign_of, significand_of, unit_shift,
    FloatClass, IeeeFloat, Precision,
};
use crate::round::{round, round_to_format};

verus! {

pub open spec fn abs_diff(a: nat, b: nat) -> nat {
    if a >= b {
        (a - b) as nat
    } else {
        (b - a) as nat
    }
}

pub open spec fn min_nat(a: nat, b: nat) -> nat {
    if a <= b {
        a
    } else {
        b
    }
}

/// `x < y` over non-negative values, `None` standing for infinity.
pub open spec fn lt_ext(x: Option<nat>, y: Option<nat>) -> bool {
    match (x, y) {
        (Some(a), Some(b)) => a < b,
        (Some(_), None) => true,
        (None, _) => false,
    }
}

/// Whether `x < epsilon`, for a non-negative `x` in units (`None`: infinity).
pub open spec fn below_epsilon(p: Precision, x: Option<nat>, epsilon: nat) -> bool {
    match class(p, epsilon) {
        FloatClass::Nan => false,
        FloatClass::Infinite => !is_negative(p, epsilon) && x is Some,
        FloatClass::Finite => !is_negative(p, epsilon) && lt_ext(x, Some(magnitude(p, epsilon))),
    }
}

/// Whether `x < epsilon * MIN_POSITIVE`, the product rounded into the format.
pub open spec fn below_epsilon_min_normal(p: Precision, x: Option<nat>, epsilon: nat) -> bool {
    match class(p, epsilon) {
        FloatClass::Nan => false,
        FloatClass::Infinite => !is_negative(p, epsilon) && x is Some,
        FloatClass::Finite => !is_negative(p, epsilon) && lt_ext(
            x,
            round_to_format(p, magnitude(p, epsilon), pow2(normal_shift(p))),
        ),
    }
}

/// The denominator of the relative error: `min(a + b, MAX)`, the sum rounded
/// into the format, where an overflowing sum counts as infinity.
pub open spec fn denominator(p: Precision, a: nat, b: nat) -> nat {
    match round_to_format(p, a + b, 1) {
        Some(v) => min_nat(v, max_magnitude(p)),
        None => max_magnitude(p),
    }
}

/// Whether `actual` is close to `expected` within the tolerance `epsilon`,
/// all three being bit patterns of format `p`.
pub open spec fn close(p: Precision, expected: nat, epsilon: nat, actual: nat) -> bool {
    let cx = class(p, expected);
    let cy = class(p, actual);
    if cx == FloatClass::Nan || cy == FloatClass::Nan {
        false
    } else if cx == FloatClass::Infinite || cy == FloatClass::Infinite {
        cx == cy
    } else {
        let a = magnitude(p, expected);
        let b = magnitude(p, actual);
        let d = round_to_format(p, abs_diff(a, b), 1);
        let s = denominator(p, a, b);
        let q = match d {
            Some(dv) => round_to_format(p, dv * pow2(unit_shift(p)), s),
            None => None,
        };
        ||| a == b
        ||| (a == 0 || b == 0 || lt_ext(d, Some(min_normal(p)))) && below_epsilon_min_normal(p, d, epsilon)
        ||| below_epsilon(p, q, epsilon)
    }
}

fn normal_shift_of(p: Precision) -> (r: u32)
    ensures
        r == normal_shift(p),
{
    match p {
        Precision::Single => 126,
        Precision::Double => 1022,
    }
}

fn unit_shift_of(p: Precision) -> (r: u32)
    ensures
        r == unit_shift(p),
        r <= 1074,
{
    match p {
        Precision::Single => 149,
        Precision::Double => 1074,
    }
}

/// The magnitude of a finite pattern.
fn magnitude_of(p: Precision, bits: u64) -> (r: BigNat)
    ensures
        r@ == magnitude(p, bits as nat),
{
    let (m, s) = significand_of(p, bits);
    BigNat::from_u64(m).shl(s)
}

/// Decides `close` for three bit patterns of format `p`.
pub fn is_close(p: Precision, expected: u64, epsilon: u64, actual: u64) -> (r: bool)
    requires
        fits(p, expected as nat),
        fits(p, epsilon as nat),
        fits(p, actual as nat),
    ensures
        r == close(p, expected as nat, epsilon as nat, actual as nat),
{
    let cx = class_of(p, expected);
    let cy = class_of(p, actual);
    if cx == FloatClass::Nan || cy == FloatClass::Nan {
        return false;
    }
    if cx == FloatClass::Infinite || cy == FloatClass::Infinite {
        return cx == cy;
    }
    let a = magnitude_of(p, expected);
    let b = magnitude_of(p, actual);
    if !a.lt(&b) && !b.lt(&a) {
        return true;
    }
    proof {
        lemma_magnitude_bound(p, expected as nat);
        lemma_magnitude_bound(p, actual as nat);
        lemma_frac_scale(p);
        lemma_pow2_unfold(2101);
        lemma_pow2_unfold(2102);
        lemma_pow2_strictly_increases(2101, 4096);
        lemma_pow2_strictly_increases(53, 2100);
        if frac_bits(p) < 52 {
            lemma_pow2_strictly_increases(frac_bits(p) + 1, 53);
        }
    }
    let one = BigNat::from_u64(1);
    let diff = if a.lt(&b) {
        b.sub(&a)
    } else {
        a.sub(&b)
    };
    let d = match round(p, &diff, &one) {
        Some(d) => d,
        None => {
            return false;
        },
    };
    let near = a.is_zero() || b.is_zero() || d.lt(&BigNat::from_u64(frac_scale_of(p)));
    let sum_opt = round(p, &a.add(&b), &one);
    let top = max_magnitude_of(p);
    let s = match sum_opt {
        Some(v) => if top.lt(&v) {
            top
        } else {
            v
        },
        None => top,
    };
    let u = unit_shift_of(p);
    let dn = d.shl(u);
    proof {
        let fs = crate::ieee::frac_scale(p);
        assert(max_magnitude(p) >= 1) by (nonlinear_arith)
            requires
                max_magnitude(p) == (2 * fs - 1) * pow2((crate::ieee::exp_count(p) - 3) as nat),
                fs >= 1,
                pow2((crate::ieee::exp_count(p) - 3) as nat) >= 1,
        ;
        let pf = pow2(frac_bits(p) + 1);
        assert(diff@ < pow2(2100));
        assert(pf < pow2(2100));
        assert(d@ < pow2(2102)) by (nonlinear_arith)
            requires
                d@ * 1 <= 2 * diff@ + pf * 1,
                diff@ < pow2(2100),
                pf < pow2(2100),
                pow2(2102) == 2 * pow2(2101),
                pow2(2101) == 2 * pow2(2100),
        ;
        lemma_pow2_adds(2102, u as nat);
        if u < 1074 {
            lemma_pow2_strictly_increases(u as nat, 1074);
        }
        lemma_pow2_adds(2102, 1074);
        vstd::arithmetic::power2::lemma_pow2_pos(1074);
        lemma_pow2_strictly_increases(3176, 4096);
        assert(d@ * pow2(u as nat) < pow2(2102) * pow2(1074)) by (nonlinear_arith)
            requires
                d@ < pow2(2102),
                pow2(u as nat) <= pow2(1074),
                pow2(1074) > 0,
        ;
    }
    let q_opt = round(p, &dn, &s);
    let ce = class_of(p, epsilon);
    if ce == FloatClass::Nan || sign_of(p, epsilon) {
        return false;
    }
    if ce == FloatClass::Infinite {
        return near || q_opt.is_some();
    }
    let ne = magnitude_of(p, epsilon);
    proof {
        lemma_magnitude_bound(p, epsilon as nat);
        vstd::arithmetic::power2::lemma_pow2_pos(normal_shift(p));
    }
    let within_absolute = near && match round(p, &ne, &one.shl(normal_shift_of(p))) {
        None => true,
        Some(t) => d.lt(&t),
    };
    let within_relative = match q_opt {
        None => false,
        Some(qv) => qv.lt(&ne),
    };
    within_absolute || within_relative
}

/// A matcher that accepts values close to `expected`.
///
/// The comparison is based on a relative error metric and uses special
/// fallbacks for edge cases such as values at or very near zero.
pub struct CloseTo<T> {
    pub expected: T,
    pub epsilon: T,
}

/// The matcher for values close to `expected`, within the tolerance `epsilon`.
pub fn close_to<T>(expected: T, epsilon: T) -> (r: CloseTo<T>)
    ensures
        r.expected == expected,
        r.epsilon == epsilon,
{
    CloseTo { expected, epsilon }
}

impl<T: IeeeFloat> CloseTo<T> {
    /// Whether `actual` counts as close to the expected value.
    pub open spec fn accepts(&self, actual: T) -> bool {
        close(T::spec_precision(), self.expected.raw(), self.epsilon.raw(), actual.raw())
    }

    /// Succeeds when `actual` is close to the expected value; otherwise hands
    /// `actual` back for reporting.
    pub fn matches(&self, actual: T) -> (r: Result<(), T>)
        ensures
            r == (if self.accepts(actual) {
                Ok(())
            } else {
                Err(actual)
            }),
    {
        let p = T::precision();
        let x = self.expected.to_raw();
        let e = self.epsilon.to_raw();
        let y = actual.to_raw();
        if is_close(p, x, e, y) {
            Ok(())
        } else {
            Err(actual)
        }
    }
}

/// A finite value is close to itself, whatever the tolerance.
pub proof fn lemma_finite_close_to_itself(p: Precision, x: nat, epsilon: nat)
    requires
        class(p, x) == FloatClass::Finite,
    ensures
        close(p, x, epsilon, x),
{
}

/// An infinity is close to itself, whatever the tolerance.
pub proof fn lemma_infinity_close_to_itself(p: Precision, x: nat, epsilon: nat)
    requires
        class(p, x) == FloatClass::Infinite,
    ensures
        close(p, x, epsilon, x),
{
}

/// NaN is close to nothing, on either side and itself included.
pub proof fn lemma_nan_close_to_nothing(p: Precision, x: nat, epsilon: nat, y: nat)
    requires
        class(p, x) == FloatClass::Nan,
    ensures
        !close(p, x, epsilon, y),
        !close(p, y, epsilon, x),
{
}

/// Swapping the expected and the actual value never changes the outcome.
pub proof fn lemma_close_symmetric(p: Precision, x: nat, epsilon: nat, y: nat)
    ensures
        close(p, x, epsilon, y) == close(p, y, epsilon, x),
{
}

/// Next to the largest finite value the relative error is taken over that
/// value: where `|x| + |y|` reaches it, the sum, whether it rounds or
/// overflows, leaves the largest finite value as the denominator.
pub proof fn lemma_denominator_capped_at_max(p: Precision, x: nat, y: nat)
    requires
        class(p, x) == FloatClass::Finite,
        class(p, y) == FloatClass::Finite,
        magnitude(p, x) + magnitude(p, y) >= max_magnitude(p),
    ensures
        denominator(p, magnitude(p, x), magnitude(p, y)) == max_magnitude(p),
{
    crate::round::lemma_round_reaches_max(p, magnitude(p, x) + magnitude(p, y));
}

} // verus!
