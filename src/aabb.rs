use vstd::prelude::*;

use crate::interval::{Interval, lemma_union_encloses};

verus! {

/// An axis-aligned bounding box: one interval of keys per axis.
#[derive(Clone, Copy, Debug, PartialEq, Eq, Structural)]
#[allow(clippy::upper_case_acronyms)]
pub struct AABB {
    pub x: Interval,
    pub y: Interval,
    pub z: Interval,
}

impl AABB {
    /// The interval of the box along axis `a` (0, 1, 2 for x, y, z).
    pub open spec fn axis_spec(self, a: int) -> Interval {
        if a == 0 { self.x } else if a == 1 { self.y } else { self.z }
    }

    /// The per-axis union of two boxes.
    pub open spec fn union_spec(a: AABB, b: AABB) -> AABB {
        AABB {
            x: Interval::union_spec(a.x, b.x),
            y: Interval::union_spec(a.y, b.y),
            z: Interval::union_spec(a.z, b.z),
        }
    }

    /// Every axis interval of `inner` lies within that of `self`.
    pub open spec fn encloses(self, inner: AABB) -> bool {
        self.x.encloses(inner.x) && self.y.encloses(inner.y) && self.z.encloses(inner.z)
    }

    pub open spec fn empty_spec() -> AABB {
        AABB {
            x: Interval { min: i64::MAX, max: i64::MIN },
            y: Interval { min: i64::MAX, max: i64::MIN },
            z: Interval { min: i64::MAX, max: i64::MIN },
        }
    }

    /// The box that holds nothing: the bounds of an empty scene.
    pub fn empty() -> (r: AABB)
        ensures
            r == AABB::empty_spec(),
    {
        AABB { x: Interval::empty(), y: Interval::empty(), z: Interval::empty() }
    }

    pub fn new(x: Interval, y: Interval, z: Interval) -> (r: AABB)
        ensures
            r == (AABB { x, y, z }),
    {
        AABB { x, y, z }
    }

    /// The box spanned by two corner points, each axis ordered so that
    /// `min <= max` whichever corner comes first.
    pub fn from_points(a: (i64, i64, i64), b: (i64, i64, i64)) -> (r: AABB)
        ensures
            r.x.min <= r.x.max && r.y.min <= r.y.max && r.z.min <= r.z.max,
            r.x == (if a.0 <= b.0 { Interval { min: a.0, max: b.0 } } else { Interval { min: b.0, max: a.0 } }),
            r.y == (if a.1 <= b.1 { Interval { min: a.1, max: b.1 } } else { Interval { min: b.1, max: a.1 } }),
            r.z == (if a.2 <= b.2 { Interval { min: a.2, max: b.2 } } else { Interval { min: b.2, max: a.2 } }),
    {
        AABB {
            x: if a.0 <= b.0 { Interval::new(a.0, b.0) } else { Interval::new(b.0, a.0) },
            y: if a.1 <= b.1 { Interval::new(a.1, b.1) } else { Interval::new(b.1, a.1) },
            z: if a.2 <= b.2 { Interval::new(a.2, b.2) } else { Interval::new(b.2, a.2) },
        }
    }

    /// The smallest box holding both `a` and `b`.
    pub fn from_aabb(a: &AABB, b: &AABB) -> (r: AABB)
        ensures
            r == AABB::union_spec(*a, *b),
    {
        AABB {
            x: Interval::union(&a.x, &b.x),
            y: Interval::union(&a.y, &b.y),
            z: Interval::union(&a.z, &b.z),
        }
    }

    /// The interval along axis `a`.
    pub fn axis(&self, a: u8) -> (r: Interval)
        requires
            a < 3,
        ensures
            r == self.axis_spec(a as int),
    {
        if a == 0 {
            self.x
        } else if a == 1 {
            self.y
        } else {
            self.z
        }
    }
}

/// The union of two boxes encloses each of them.
pub proof fn lemma_box_union_encloses(a: AABB, b: AABB)
    ensures
        AABB::union_spec(a, b).encloses(a),
        AABB::union_spec(a, b).encloses(b),
{
    lemma_union_encloses(a.x, b.x);
    lemma_union_encloses(a.y, b.y);
    lemma_union_encloses(a.z, b.z);
}

/// Enclosure is transitive.
pub proof fn lemma_encloses_trans(a: AABB, b: AABB, c: AABB)
    requires
        a.encloses(b),
        b.encloses(c),
    ensures
        a.encloses(c),
{
}

} // verus!

verus! {

/// The union of all the boxes in `s`; the empty box when there are none.
pub open spec fn union_all(s: Seq<AABB>) -> AABB
    decreases s.len(),
{
    if s.len() == 0 {
        AABB::empty_spec()
    } else {
        AABB::union_spec(union_all(s.drop_last()), s.last())
    }
}

} // verus!
