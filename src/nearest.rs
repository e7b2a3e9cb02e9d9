//! What a nearest-hit query answers, stated over a model of the scene: each
//! primitive `k` is hit by the ray at the parameters `roots[k]`, and a query on
//! `(lo, hi)` reports the smallest parameter strictly inside that range.
use vstd::prelude::*;

verus! {

/// The earlier of two optional hit parameters.
pub open spec fn closer(a: Option<int>, b: Option<int>) -> Option<int> {
    match (a, b) {
        (None, _) => b,
        (_, None) => a,
        (Some(x), Some(y)) => if y < x { Some(y) } else { Some(x) },
    }
}

/// `a` if it lies strictly below `t`, else nothing.
pub open spec fn below(a: Option<int>, t: int) -> Option<int> {
    match a {
        Some(x) => if x < t { Some(x) } else { None },
        None => None,
    }
}

/// The smallest of `roots` strictly inside `(lo, hi)`.
pub open spec fn first_root(roots: Seq<int>, lo: int, hi: int) -> Option<int>
    decreases roots.len(),
{
    if roots.len() == 0 {
        None
    } else {
        let x = roots.last();
        closer(first_root(roots.drop_last(), lo, hi), if lo < x < hi { Some(x) } else { None })
    }
}

/// The nearest hit, strictly inside `(lo, hi)`, among the primitives `ids`.
pub open spec fn nearest_among(ids: Seq<usize>, roots: Seq<Seq<int>>, lo: int, hi: int) -> Option<int>
    decreases ids.len(),
{
    if ids.len() == 0 {
        None
    } else {
        closer(
            nearest_among(ids.drop_last(), roots, lo, hi),
            first_root(roots[ids.last() as int], lo, hi),
        )
    }
}

/// The indices `0, 1, ..., n - 1` in order.
pub open spec fn index_range(n: nat) -> Seq<usize> {
    Seq::new(n, |i: int| i as usize)
}

pub open spec fn inside(a: Option<int>, lo: int, hi: int) -> bool {
    match a {
        Some(x) => lo < x < hi,
        None => true,
    }
}

pub proof fn lemma_first_root_inside(roots: Seq<int>, lo: int, hi: int)
    ensures
        inside(first_root(roots, lo, hi), lo, hi),
    decreases roots.len(),
{
    if roots.len() > 0 {
        lemma_first_root_inside(roots.drop_last(), lo, hi);
    }
}

pub proof fn lemma_nearest_inside(ids: Seq<usize>, roots: Seq<Seq<int>>, lo: int, hi: int)
    ensures
        inside(nearest_among(ids, roots, lo, hi), lo, hi),
    decreases ids.len(),
{
    if ids.len() > 0 {
        lemma_nearest_inside(ids.drop_last(), roots, lo, hi);
        lemma_first_root_inside(roots[ids.last() as int], lo, hi);
    }
}

/// Lowering the upper bound of a query to `t` keeps exactly the answers below `t`.
pub proof fn lemma_first_root_narrow(roots: Seq<int>, lo: int, hi: int, t: int)
    requires
        t <= hi,
    ensures
        first_root(roots, lo, t) == below(first_root(roots, lo, hi), t),
    decreases roots.len(),
{
    if roots.len() > 0 {
        lemma_first_root_narrow(roots.drop_last(), lo, hi, t);
    }
}

/// Lowering the upper bound of a query to `t` keeps exactly the answers below `t`.
pub proof fn lemma_nearest_narrow(ids: Seq<usize>, roots: Seq<Seq<int>>, lo: int, hi: int, t: int)
    requires
        t <= hi,
    ensures
        nearest_among(ids, roots, lo, t) == below(nearest_among(ids, roots, lo, hi), t),
    decreases ids.len(),
{
    if ids.len() > 0 {
        lemma_nearest_narrow(ids.drop_last(), roots, lo, hi, t);
        lemma_first_root_narrow(roots[ids.last() as int], lo, hi, t);
    }
}

/// The nearest hit of a concatenation is the closer of the two parts' nearest hits.
pub proof fn lemma_nearest_concat(a: Seq<usize>, b: Seq<usize>, roots: Seq<Seq<int>>, lo: int, hi: int)
    ensures
        nearest_among(a + b, roots, lo, hi) == closer(
            nearest_among(a, roots, lo, hi),
            nearest_among(b, roots, lo, hi),
        ),
    decreases b.len(),
{
    if b.len() == 0 {
        assert(a + b =~= a);
    } else {
        assert((a + b).drop_last() =~= a + b.drop_last());
        assert((a + b).last() == b.last());
        lemma_nearest_concat(a, b.drop_last(), roots, lo, hi);
    }
}

/// The nearest hit among `ids` is characterised by the primitives that `ids`
/// holds: nothing when none of them is hit, else a hit of one of them that no
/// other hit precedes.
pub open spec fn nearest_of_members(ids: Seq<usize>, roots: Seq<Seq<int>>, lo: int, hi: int, v: Option<int>) -> bool {
    match v {
        None => forall|k: usize| ids.contains(k) ==> first_root(#[trigger] roots[k as int], lo, hi) is None,
        Some(x) => {
            &&& exists|k: usize| ids.contains(k) && first_root(#[trigger] roots[k as int], lo, hi) == Some(x)
            &&& forall|k: usize| ids.contains(k) ==> match first_root(#[trigger] roots[k as int], lo, hi) {
                Some(y) => x <= y,
                None => true,
            }
        },
    }
}

pub proof fn lemma_nearest_members(ids: Seq<usize>, roots: Seq<Seq<int>>, lo: int, hi: int)
    ensures
        nearest_of_members(ids, roots, lo, hi, nearest_among(ids, roots, lo, hi)),
    decreases ids.len(),
{
    if ids.len() > 0 {
        let init = ids.drop_last();
        let last = ids.last();
        lemma_nearest_members(init, roots, lo, hi);
        assert forall|k: usize| ids.contains(k) implies (init.contains(k) || k == last) by {
            let i = choose|i: int| 0 <= i < ids.len() && ids[i] == k;
            if i < ids.len() - 1 {
                assert(init[i] == k);
            }
        }
        assert forall|k: usize| init.contains(k) implies ids.contains(k) by {
            let i = choose|i: int| 0 <= i < init.len() && init[i] == k;
            assert(ids[i] == k);
        }
        assert(ids[ids.len() - 1] == last);
        assert(ids.contains(last));
    }
}

/// Two index sequences holding the same primitives have the same nearest hit.
pub proof fn lemma_nearest_same_members(a: Seq<usize>, b: Seq<usize>, roots: Seq<Seq<int>>, lo: int, hi: int)
    requires
        forall|k: usize| a.contains(k) <==> b.contains(k),
    ensures
        nearest_among(a, roots, lo, hi) == nearest_among(b, roots, lo, hi),
{
    lemma_nearest_members(a, roots, lo, hi);
    lemma_nearest_members(b, roots, lo, hi);
    let va = nearest_among(a, roots, lo, hi);
    let vb = nearest_among(b, roots, lo, hi);
    match (va, vb) {
        (Some(x), Some(y)) => {
            let ka = choose|k: usize| a.contains(k) && first_root(#[trigger] roots[k as int], lo, hi) == Some(x);
            let kb = choose|k: usize| b.contains(k) && first_root(#[trigger] roots[k as int], lo, hi) == Some(y);
            assert(b.contains(ka));
            assert(a.contains(kb));
        },
        (Some(x), None) => {
            let ka = choose|k: usize| a.contains(k) && first_root(#[trigger] roots[k as int], lo, hi) == Some(x);
            assert(b.contains(ka));
        },
        (None, Some(y)) => {
            let kb = choose|k: usize| b.contains(k) && first_root(#[trigger] roots[k as int], lo, hi) == Some(y);
            assert(a.contains(kb));
        },
        (None, None) => {},
    }
}

/// When none of `ids` is hit inside the range, the query reports nothing.
pub proof fn lemma_nearest_none(ids: Seq<usize>, roots: Seq<Seq<int>>, lo: int, hi: int)
    requires
        forall|i: int| 0 <= i < ids.len() ==> first_root(#[trigger] roots[ids[i] as int], lo, hi) is None,
    ensures
        nearest_among(ids, roots, lo, hi) is None,
    decreases ids.len(),
{
    if ids.len() > 0 {
        let init = ids.drop_last();
        assert forall|i: int| 0 <= i < init.len() implies first_root(#[trigger] roots[init[i] as int], lo, hi) is None by {
            assert(init[i] == ids[i]);
        }
        lemma_nearest_none(init, roots, lo, hi);
        assert(first_root(roots[ids[ids.len() - 1] as int], lo, hi) is None);
    }
}

} // verus!
