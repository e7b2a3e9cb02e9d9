//! The choice of root in a ray-sphere hit: the quadratic's two roots are
//! computed by the caller, and the hit is the nearer one that lies strictly
//! inside the valid interval.
use vstd::prelude::*;

use crate::interval::Interval;
use crate::nearest::first_root;

verus! {

/// The optional root as an integer.
pub open spec fn root_of(r: Option<i64>) -> Option<int> {
    match r {
        Some(t) => Some(t as int),
        None => None,
    }
}

/// The hit parameter of a sphere whose roots are `near <= far`: `near` if it
/// lies strictly inside `valid_t_interval`, else `far` if that does, else none.
pub fn pick_root(near: i64, far: i64, valid_t_interval: Interval) -> (r: Option<i64>)
    ensures
        r == (if valid_t_interval.strictly_holds(near as int) {
            Some(near)
        } else if valid_t_interval.strictly_holds(far as int) {
            Some(far)
        } else {
            None::<i64>
        }),
        near <= far ==> root_of(r) == first_root(
            seq![near as int, far as int],
            valid_t_interval.min as int,
            valid_t_interval.max as int,
        ),
{
    proof {
        let s = seq![near as int, far as int];
        assert(s.drop_last() =~= seq![near as int]);
        assert(s.drop_last().drop_last() =~= Seq::<int>::empty());
        reveal_with_fuel(first_root, 3);
    }
    let root = if !valid_t_interval.surrounds(near) {
        far
    } else {
        near
    };
    if !valid_t_interval.surrounds(root) {
        return None;
    }
    Some(root)
}

} // verus!
