//! Equality and order of numbers.

use core::cmp::Ordering;
use vstd::prelude::*;
use vstd::std_specs::cmp::{PartialEqSpecImpl, PartialOrdSpecImpl};
use crate::units::{NumberUnit, is_magnitude_zero, lemma_mag_value_zero};
use crate::magnitude::{MagnitudeOrder, compare_magnitudes};
use crate::number::{Fdec, FLAG_NAN, FLAG_NEGATIVE, FLAG_INFINITY, FLAGS_NEG_INFINITY};
use crate::value::{Value, eq_value, lt_value};

verus! {

/// How `a` stands to `b`: nothing if either is NaN; negative infinity is
/// least and infinity greatest.
pub open spec fn order_value(a: Value, b: Value) -> Option<Ordering> {
    if a is Nan || b is Nan {
        None
    } else if lt_value(a, b) {
        Some(Ordering::Less)
    } else if lt_value(b, a) {
        Some(Ordering::Greater)
    } else {
        Some(Ordering::Equal)
    }
}

impl<U: NumberUnit, const N: usize, const SCALE: usize> PartialEqSpecImpl for Fdec<U, N, SCALE> {
    open spec fn obeys_eq_spec() -> bool {
        true
    }

    open spec fn eq_spec(&self, other: &Self) -> bool {
        eq_value(self@, other@)
    }
}

impl<U: NumberUnit, const N: usize, const SCALE: usize> PartialEq for Fdec<U, N, SCALE> {
    /// NaN equals nothing; an infinity equals the infinity of its sign; two
    /// numbers are equal if they stand for the same value.
    fn eq(&self, other: &Self) -> (r: bool) {
        proof {
            self.lemma_repr();
            other.lemma_repr();
            lemma_mag_value_zero(self.magnitude@);
        }
        if self.flags == FLAG_NAN || other.flags == FLAG_NAN {
            return false;
        }
        let s_inf = self.flags == FLAG_INFINITY || self.flags == FLAGS_NEG_INFINITY;
        let o_inf = other.flags == FLAG_INFINITY || other.flags == FLAGS_NEG_INFINITY;
        if s_inf || o_inf {
            return self.flags == other.flags;
        }
        match compare_magnitudes(&self.magnitude, &other.magnitude) {
            MagnitudeOrder::Equal => {
                (self.flags == FLAG_NEGATIVE) == (other.flags == FLAG_NEGATIVE)
                    || is_magnitude_zero(&self.magnitude)
            },
            _ => false,
        }
    }
}

impl<U: NumberUnit, const N: usize, const SCALE: usize> PartialOrdSpecImpl for Fdec<U, N, SCALE> {
    open spec fn obeys_partial_cmp_spec() -> bool {
        true
    }

    open spec fn partial_cmp_spec(&self, other: &Self) -> Option<Ordering> {
        order_value(self@, other@)
    }
}

impl<U: NumberUnit, const N: usize, const SCALE: usize> PartialOrd for Fdec<U, N, SCALE> {
    /// NaN is unordered with everything; infinity is above and negative
    /// infinity below every number; numbers compare by sign, then by
    /// magnitude.
    fn partial_cmp(&self, other: &Self) -> (r: Option<Ordering>) {
        proof {
            self.lemma_repr();
            other.lemma_repr();
            lemma_mag_value_zero(self.magnitude@);
            lemma_mag_value_zero(other.magnitude@);
        }
        if self.flags == FLAG_NAN || other.flags == FLAG_NAN {
            return None;
        }
        let s_inf = self.flags == FLAG_INFINITY || self.flags == FLAGS_NEG_INFINITY;
        let o_inf = other.flags == FLAG_INFINITY || other.flags == FLAGS_NEG_INFINITY;
        if s_inf {
            return if self.flags == other.flags {
                Some(Ordering::Equal)
            } else if self.flags == FLAG_INFINITY {
                Some(Ordering::Greater)
            } else {
                Some(Ordering::Less)
            };
        } else if o_inf {
            return if other.flags == FLAG_INFINITY {
                Some(Ordering::Less)
            } else {
                Some(Ordering::Greater)
            };
        }
        // Both numbers are normal => compare magnitudes and signs

        let order = compare_magnitudes(&self.magnitude, &other.magnitude);
        let self_negative = self.flags == FLAG_NEGATIVE && !is_magnitude_zero(&self.magnitude);
        let other_negative = other.flags == FLAG_NEGATIVE && !is_magnitude_zero(&other.magnitude);
        if !self_negative && other_negative {
            Some(Ordering::Greater)
        } else if self_negative && !other_negative {
            Some(Ordering::Less)
        } else if !self_negative {
            match order {
                MagnitudeOrder::Less => Some(Ordering::Less),
                MagnitudeOrder::Equal => Some(Ordering::Equal),
                MagnitudeOrder::Greater => Some(Ordering::Greater),
            }
        } else {
            match order {
                MagnitudeOrder::Less => Some(Ordering::Greater),
                MagnitudeOrder::Equal => Some(Ordering::Equal),
                MagnitudeOrder::Greater => Some(Ordering::Less),
            }
        }
    }
}

} // verus!
