use vstd::prelude::*;

verus! {

/// A closed range `[min, max]` of order keys. An interval with `min > max`
/// holds nothing; `Interval::empty()` is the canonical one.
#[derive(Clone, Copy, Debug, PartialEq, Eq, Structural)]
pub struct Interval {
    pub min: i64,
    pub max: i64,
}

pub open spec fn min_int(a: int, b: int) -> int {
    if a <= b { a } else { b }
}

pub open spec fn max_int(a: int, b: int) -> int {
    if a >= b { a } else { b }
}

impl Interval {
    /// `x` lies in the closed interval.
    pub open spec fn holds(self, x: int) -> bool {
        self.min <= x <= self.max
    }

    /// `x` lies strictly inside the interval.
    pub open spec fn strictly_holds(self, x: int) -> bool {
        self.min < x < self.max
    }

    /// The smallest interval holding both.
    pub open spec fn union_spec(a: Interval, b: Interval) -> Interval {
        Interval { min: min_int(a.min as int, b.min as int) as i64, max: max_int(a.max as int, b.max as int) as i64 }
    }

    /// Every key of `inner` lies in `self` (bound by bound).
    pub open spec fn encloses(self, inner: Interval) -> bool {
        self.min <= inner.min && inner.max <= self.max
    }

    pub fn new(min: i64, max: i64) -> (r: Interval)
        ensures
            r.min == min,
            r.max == max,
    {
        Interval { min, max }
    }

    /// The interval that holds nothing: the identity of `union`.
    pub fn empty() -> (r: Interval)
        ensures
            r.min == i64::MAX,
            r.max == i64::MIN,
    {
        Interval { min: i64::MAX, max: i64::MIN }
    }

    /// The interval that holds every key.
    pub fn universe() -> (r: Interval)
        ensures
            r.min == i64::MIN,
            r.max == i64::MAX,
    {
        Interval { min: i64::MIN, max: i64::MAX }
    }

    pub fn is_empty(&self) -> (r: bool)
        ensures
            r == (self.min > self.max),
    {
        self.min > self.max
    }

    pub fn contains(&self, x: i64) -> (r: bool)
        ensures
            r == self.holds(x as int),
    {
        self.min <= x && x <= self.max
    }

    pub fn surrounds(&self, x: i64) -> (r: bool)
        ensures
            r == self.strictly_holds(x as int),
    {
        self.min < x && x < self.max
    }

    /// The smallest interval holding both `a` and `b`.
    pub fn union(a: &Interval, b: &Interval) -> (r: Interval)
        ensures
            r == Interval::union_spec(*a, *b),
    {
        Interval {
            min: if a.min <= b.min { a.min } else { b.min },
            max: if a.max >= b.max { a.max } else { b.max },
        }
    }

    /// The same interval with its upper bound lowered to `max`.
    pub fn narrowed(&self, max: i64) -> (r: Interval)
        ensures
            r.min == self.min,
            r.max == max,
    {
        Interval { min: self.min, max }
    }
}

/// The union encloses both of its operands.
pub proof fn lemma_union_encloses(a: Interval, b: Interval)
    ensures
        Interval::union_spec(a, b).encloses(a),
        Interval::union_spec(a, b).encloses(b),
{
}

} // verus!
