use std::sync::Arc;
use vstd::prelude::*;

use crate::order::Ordered;

verus! {

/// Hands out another `Arc` to the same allocation: `Arc::clone` of std, whose
/// documentation says it makes another pointer to the same allocation, so the
/// result holds the same value.
#[verifier::external_body]
pub(crate) fn share<T>(a: &Arc<T>) -> (r: Arc<T>)
    ensures
        r == *a,
{
    Arc::clone(a)
}

/// `a` widened to take in `b`.
pub open spec fn combined<T: Ordered>(a: Range<T>, b: Range<T>) -> Range<T> {
    Range {
        min: if b.min_key() < a.min_key() { b.min } else { a.min },
        max: if a.max_key() < b.max_key() { b.max } else { a.max },
    }
}

/// `r` widened to take in `v`: `v` becomes the maximum when it lies above the
/// range, else the minimum when it lies below it.
pub open spec fn updated<T: Ordered>(r: Range<T>, v: Arc<T>) -> Range<T> {
    if r.max_key() < (*v).key() {
        Range { min: r.min, max: v }
    } else if (*v).key() < r.min_key() {
        Range { min: v, max: r.max }
    } else {
        r
    }
}

/// Widening a range that is not upside down to take in `v` gives a range
/// that holds `v` and all the old range held.
pub proof fn lemma_updated_holds<T: Ordered>(r: Range<T>, v: Arc<T>)
    requires
        r.min_key() <= r.max_key(),
    ensures
        updated(r, v).min_key() <= (*v).key() <= updated(r, v).max_key(),
        updated(r, v).min_key() <= r.min_key(),
        r.max_key() <= updated(r, v).max_key(),
{
}

/// Combining two ranges gives the smallest range that holds both.
pub proof fn lemma_combined_holds<T: Ordered>(a: Range<T>, b: Range<T>)
    ensures
        combined(a, b).min_key() <= a.min_key(),
        combined(a, b).min_key() <= b.min_key(),
        combined(a, b).min_key() == a.min_key() || combined(a, b).min_key() == b.min_key(),
        a.max_key() <= combined(a, b).max_key(),
        b.max_key() <= combined(a, b).max_key(),
        combined(a, b).max_key() == a.max_key() || combined(a, b).max_key() == b.max_key(),
{
}

/// Combining is the same either way round, and in any grouping, as far as
/// the keys of the bounds go; a range combined with itself is unchanged.
pub proof fn lemma_combined_laws<T: Ordered>(a: Range<T>, b: Range<T>, c: Range<T>)
    ensures
        combined(a, b).min_key() == combined(b, a).min_key(),
        combined(a, b).max_key() == combined(b, a).max_key(),
        combined(combined(a, b), c).min_key() == combined(a, combined(b, c)).min_key(),
        combined(combined(a, b), c).max_key() == combined(a, combined(b, c)).max_key(),
        combined(a, a) == a,
{
}

/// The smallest and the largest item under an index node.
#[derive(Debug, PartialEq, Eq)]
pub struct Range<T> {
    pub min: Arc<T>,
    pub max: Arc<T>,
}

impl<T> Clone for Range<T> {
    fn clone(&self) -> (r: Self)
        ensures
            r == *self,
    {
        Range { min: share(&self.min), max: share(&self.max) }
    }
}

impl<T: Ordered> Range<T> {
    pub open spec fn min_key(&self) -> int {
        (*self.min).key()
    }

    pub open spec fn max_key(&self) -> int {
        (*self.max).key()
    }
}

impl<T: Ordered> Range<T> {
    /// The range that holds `value` alone.
    pub fn new(value: Arc<T>) -> (r: Self)
        ensures
            r.min == value,
            r.max == value,
    {
        Range { min: share(&value), max: value }
    }

    pub fn new_in(min: T, max: T) -> (r: Self)
        ensures
            *r.min == min,
            *r.max == max,
    {
        Range { min: Arc::new(min), max: Arc::new(max) }
    }

    pub fn in_range(&self, value: &T) -> (r: bool)
        ensures
            r == (self.min_key() <= value.key() && value.key() <= self.max_key()),
    {
        !value.less_than(&*self.min) && !(&*self.max).less_than(value)
    }

    pub fn left_range(&self, value: &T) -> (r: bool)
        ensures
            r == (value.key() < self.min_key()),
    {
        value.less_than(&*self.min)
    }

    /// Widens the range to take in `value`: it becomes the maximum when it lies
    /// above the range, else the minimum when it lies below it.
    pub fn update(&mut self, value: Arc<T>)
        ensures
            *final(self) == updated(*old(self), value),
    {
        if (&*self.max).less_than(&*value) {
            self.max = value;
        } else if (&*value).less_than(&*self.min) {
            self.min = value;
        }
    }

    /// Widens the range to take in `rhs`.
    pub fn combine(&mut self, rhs: &Self)
        ensures
            *final(self) == combined(*old(self), *rhs),
    {
        if (&*rhs.min).less_than(&*self.min) {
            self.min = share(&rhs.min);
        }
        if (&*self.max).less_than(&*rhs.max) {
            self.max = share(&rhs.max);
        }
    }
}

} // verus!
