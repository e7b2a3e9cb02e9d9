use vstd::prelude::*;

use rand::Rng;

use crate::aabb::{AABB, union_all, lemma_box_union_encloses, lemma_encloses_trans};
use crate::interval::Interval;
use crate::nearest::{
    closer, first_root, nearest_among, index_range, below, lemma_first_root_inside,
    lemma_first_root_narrow, lemma_nearest_inside, lemma_nearest_narrow, lemma_nearest_concat,
    lemma_nearest_none, lemma_nearest_same_members,
};

verus! {

/// The parameter of an optional hit, as an integer.
pub open spec fn t_of<R>(r: Option<(i64, R)>) -> Option<int> {
    match r {
        Some(h) => Some(h.0 as int),
        None => None,
    }
}

/// A primitive hit test that answers as the model `roots` says: asked about
/// primitive `k` on an interval, it reports the first root of `k` strictly
/// inside that interval, with a payload of the caller's choosing.
pub open spec fn leaf_model<R, L: Fn(usize, Interval) -> Option<(i64, R)>>(
    leaf_hit: L,
    roots: Seq<Seq<int>>,
) -> bool {
    forall|k: usize, iv: Interval, r: Option<(i64, R)>|
        #[trigger] leaf_hit.ensures((k, iv), r) && k < roots.len() ==> t_of(r) == first_root(
            roots[k as int],
            iv.min as int,
            iv.max as int,
        )
}

/// A box test that rejects a box on an interval only when no primitive whose
/// box it encloses is hit inside that interval.
pub open spec fn box_model<B: Fn(AABB, Interval) -> bool>(
    box_hit: B,
    boxes: Seq<AABB>,
    roots: Seq<Seq<int>>,
) -> bool {
    forall|b: AABB, iv: Interval|
        #[trigger] box_hit.ensures((b, iv), false) ==> forall|k: int|
            0 <= k < boxes.len() && b.encloses(#[trigger] boxes[k]) ==> first_root(
                roots[k],
                iv.min as int,
                iv.max as int,
            ) is None
}

/// The primitives of a scene, each with its bounding box, and the union of
/// those boxes.
pub struct HittablesList<H> {
    v: Vec<H>,
    boxes: Vec<AABB>,
    bbox: AABB,
}

impl<H> HittablesList<H> {
    pub closed spec fn items(self) -> Seq<H> {
        self.v@
    }

    pub closed spec fn boxes_view(self) -> Seq<AABB> {
        self.boxes@
    }

    pub closed spec fn bounds(self) -> AABB {
        self.bbox
    }

    /// One box per primitive, and the bounds are the union of the boxes.
    #[verifier::type_invariant]
    pub closed spec fn wf(self) -> bool {
        &&& self.v@.len() == self.boxes@.len()
        &&& self.bbox == union_all(self.boxes@)
    }

    /// An empty list, bounded by the empty box.
    pub fn new() -> (r: Self)
        ensures
            r.items().len() == 0,
            r.boxes_view().len() == 0,
            r.bounds() == AABB::empty_spec(),
    {
        HittablesList { v: Vec::new(), boxes: Vec::new(), bbox: AABB::empty() }
    }

    /// Adds a primitive with its bounding box; the bounds grow to hold it.
    pub fn add(&mut self, hittable: H, bbox: AABB)
        ensures
            final(self).items() == old(self).items().push(hittable),
            final(self).boxes_view() == old(self).boxes_view().push(bbox),
            final(self).bounds() == AABB::union_spec(old(self).bounds(), bbox),
    {
        proof {
            use_type_invariant(&*self);
        }
        let mut old_list = HittablesList::new();
        std::mem::swap(self, &mut old_list);
        proof {
            use_type_invariant(&old_list);
        }
        let HittablesList { v: mut items, boxes: mut bounds, bbox: total } = old_list;
        let total = AABB::from_aabb(&total, &bbox);
        items.push(hittable);
        bounds.push(bbox);
        assert(bounds@.drop_last() =~= old(self).boxes@);
        *self = HittablesList { v: items, boxes: bounds, bbox: total };
    }

    /// Moves every primitive of `hittables`, in order, to the end of the list,
    /// leaving `hittables` empty.
    pub fn append(&mut self, hittables: &mut Vec<(H, AABB)>)
        ensures
            final(hittables)@.len() == 0,
            final(self).items() == old(self).items() + old(hittables)@.map_values(|p: (H, AABB)| p.0),
            final(self).boxes_view() == old(self).boxes_view() + old(hittables)@.map_values(
                |p: (H, AABB)| p.1,
            ),
            final(self).bounds() == union_all(final(self).boxes_view()),
    {
        let ghost items0 = self.v@;
        let ghost boxes0 = self.boxes@;
        let ghost src = hittables@;
        let total = hittables.len();
        let mut i: usize = 0;
        while hittables.len() > 0
            invariant
                i <= src.len(),
                src.len() == total,
                hittables@ == src.subrange(i as int, src.len() as int),
                self.v@ == items0 + src.subrange(0, i as int).map_values(|p: (H, AABB)| p.0),
                self.boxes@ == boxes0 + src.subrange(0, i as int).map_values(|p: (H, AABB)| p.1),
            decreases hittables.len(),
        {
            proof {
                assert(hittables@.len() == src.len() - i);
            }
            let (h, b) = hittables.remove(0);
            self.add(h, b);
            proof {
                assert(src.subrange(0, i + 1) =~= src.subrange(0, i as int).push(src[i as int]));
                assert(src.subrange(0, i + 1).map_values(|p: (H, AABB)| p.0)
                    =~= src.subrange(0, i as int).map_values(|p: (H, AABB)| p.0).push(src[i as int].0));
                assert(src.subrange(0, i + 1).map_values(|p: (H, AABB)| p.1)
                    =~= src.subrange(0, i as int).map_values(|p: (H, AABB)| p.1).push(src[i as int].1));
                assert(self.v@ =~= items0 + src.subrange(0, i + 1).map_values(|p: (H, AABB)| p.0));
                assert(self.boxes@ =~= boxes0 + src.subrange(0, i + 1).map_values(|p: (H, AABB)| p.1));
                assert(hittables@ =~= src.subrange(i + 1, src.len() as int));
            }
            i = i + 1;
        }
        assert(src.subrange(0, i as int) =~= src);
        proof {
            use_type_invariant(&*self);
        }
    }

    /// The number of primitives.
    pub fn len(&self) -> (r: usize)
        ensures
            r == self.items().len(),
            r == self.boxes_view().len(),
    {
        proof {
            use_type_invariant(self);
        }
        self.v.len()
    }

    pub fn is_empty(&self) -> (r: bool)
        ensures
            r == (self.items().len() == 0),
    {
        proof {
            use_type_invariant(self);
        }
        self.v.len() == 0
    }

    /// The primitive at index `k`.
    pub fn get(&self, k: usize) -> (r: &H)
        requires
            k < self.items().len(),
        ensures
            *r == self.items()[k as int],
    {
        &self.v[k]
    }

    /// The bounding box of primitive `k`.
    pub fn bbox_of(&self, k: usize) -> (r: AABB)
        requires
            k < self.boxes_view().len(),
        ensures
            r == self.boxes_view()[k as int],
    {
        self.boxes[k]
    }

    /// The union of the boxes of all primitives.
    pub fn bbox(&self) -> (r: AABB)
        ensures
            r == self.bounds(),
    {
        self.bbox
    }

    /// The nearest hit over all primitives by a linear scan: each primitive is
    /// asked in turn, on the interval narrowed to the closest hit found so far.
    /// Under any scene model that `leaf_hit` follows, the result is the
    /// nearest hit strictly inside `valid_t_interval`.
    pub fn hit<R, L: Fn(usize, Interval) -> Option<(i64, R)>>(
        &self,
        leaf_hit: &L,
        valid_t_interval: Interval,
    ) -> (r: Option<(i64, R)>)
        requires
            forall|k: usize, iv: Interval| leaf_hit.requires((k, iv)),
        ensures
            forall|roots: Seq<Seq<int>>|
                #[trigger] leaf_model(*leaf_hit, roots) && roots.len() == self.items().len()
                    ==> t_of(r) == nearest_among(
                    index_range(self.items().len()),
                    roots,
                    valid_t_interval.min as int,
                    valid_t_interval.max as int,
                ),
    {
        proof {
            use_type_invariant(self);
        }
        let n = self.v.len();
        let lo = valid_t_interval.min;
        let hi = valid_t_interval.max;
        let mut best: Option<(i64, R)> = None;
        let mut cur = hi;
        let mut k: usize = 0;
        while k < n
            invariant
                n == self.v@.len(),
                k <= n,
                lo == valid_t_interval.min,
                hi == valid_t_interval.max,
                forall|k: usize, iv: Interval| leaf_hit.requires((k, iv)),
                cur == (match best {
                    Some(h) => h.0,
                    None => hi,
                }),
                forall|roots: Seq<Seq<int>>|
                    #[trigger] leaf_model(*leaf_hit, roots) && roots.len() == n ==> t_of(best)
                        == nearest_among(index_range(k as nat), roots, lo as int, hi as int),
            decreases n - k,
        {
            let iv = valid_t_interval.narrowed(cur);
            let r = leaf_hit(k, iv);
            let ghost old_cur = cur;
            let ghost rt = t_of(r);
            match r {
                Some(h) => {
                    cur = h.0;
                    best = Some(h);
                },
                None => {},
            }
            proof {
                assert forall|roots: Seq<Seq<int>>|
                    #[trigger] leaf_model(*leaf_hit, roots) && roots.len() == n implies t_of(best)
                        == nearest_among(index_range((k + 1) as nat), roots, lo as int, hi as int) by {
                    let prefix = index_range(k as nat);
                    let x = first_root(roots[k as int], lo as int, hi as int);
                    assert(index_range((k + 1) as nat).drop_last() =~= prefix);
                    lemma_nearest_inside(prefix, roots, lo as int, hi as int);
                    lemma_first_root_inside(roots[k as int], lo as int, hi as int);
                    lemma_first_root_narrow(roots[k as int], lo as int, hi as int, old_cur as int);
                    assert(call_ensures(*leaf_hit, (k, iv), r));
                    assert(rt == below(x, old_cur as int));
                }
            }
            k = k + 1;
        }
        best
    }
}

/// Relies on rand's `thread_rng().gen_range(0..3)`: an axis drawn uniformly
/// from 0, 1 and 2 (the range is not empty, so the call does not panic).
#[verifier::external_body]
fn random_axis() -> (r: u8)
    ensures
        r < 3,
{
    rand::thread_rng().gen_range(0u8..3u8)
}

/// The lower bound of primitive `k`'s box along `axis`.
fn axis_min(boxes: &Vec<AABB>, k: usize, axis: u8) -> (r: i64)
    requires
        k < boxes@.len(),
        axis < 3,
    ensures
        r == boxes@[k as int].axis_spec(axis as int).min,
{
    boxes[k].axis(axis).min
}

/// Relies on `slice::sort_by_key`: it reorders the elements so that their keys
/// do not decrease, keeping each element.
#[verifier::external_body]
fn sort_by_axis_min(ids: &mut Vec<usize>, boxes: &Vec<AABB>, axis: u8)
    requires
        forall|i: int| 0 <= i < old(ids)@.len() ==> old(ids)@[i] < boxes@.len(),
        axis < 3,
    ensures
        final(ids)@.to_multiset() == old(ids)@.to_multiset(),
        forall|i: int| 0 <= i < final(ids)@.len() ==> final(ids)@[i] < boxes@.len(),
        forall|i: int, j: int|
            0 <= i <= j < final(ids)@.len() ==> boxes@[final(ids)@[i] as int].axis_spec(
                axis as int,
            ).min <= boxes@[final(ids)@[j] as int].axis_spec(axis as int).min,
{
    ids.sort_by_key(|k: &usize| axis_min(boxes, *k, axis));
}

/// A bounding volume hierarchy over the primitives of a `HittablesList`.
/// An internal node owns two children and is bounded by the union of their
/// boxes; a leaf holds the index of one primitive and its box, or, in the
/// hierarchy of an empty scene, nothing and the empty box.
#[allow(clippy::upper_case_acronyms)]
pub struct BVH {
    left: Option<Box<BVH>>,
    right: Option<Box<BVH>>,
    bbox: AABB,
    hittable: Option<usize>,
}

impl BVH {
    pub closed spec fn bounds(self) -> AABB {
        self.bbox
    }

    /// The node holds no children and no primitive.
    pub closed spec fn is_sentinel(self) -> bool {
        self.left is None && self.right is None && self.hittable is None
    }

    /// The primitives of the leaves, from left to right.
    pub closed spec fn leaves(self) -> Seq<usize>
        decreases self,
    {
        match (self.left, self.right) {
            (Some(l), Some(r)) => l.leaves() + r.leaves(),
            _ => match self.hittable {
                Some(k) => seq![k],
                None => Seq::empty(),
            },
        }
    }

    /// The number of sentinel leaves.
    pub closed spec fn sentinels(self) -> nat
        decreases self,
    {
        match (self.left, self.right) {
            (Some(l), Some(r)) => l.sentinels() + r.sentinels(),
            _ => if self.hittable is None { 1 } else { 0 },
        }
    }

    /// Every node has no child or two; an internal node holds no primitive and
    /// is bounded by the union of its children's boxes; a leaf is bounded by its
    /// primitive's box in `boxes`, or by the empty box if it holds none.
    pub closed spec fn wf_for(self, boxes: Seq<AABB>) -> bool
        decreases self,
    {
        match (self.left, self.right) {
            (None, None) => match self.hittable {
                Some(k) => k < boxes.len() && self.bbox == boxes[k as int],
                None => self.bbox == AABB::empty_spec(),
            },
            (Some(l), Some(r)) => {
                &&& self.hittable is None
                &&& l.wf_for(boxes)
                &&& r.wf_for(boxes)
                &&& self.bbox == AABB::union_spec(l.bbox, r.bbox)
            },
            _ => false,
        }
    }

    /// The node's records in pre-order: its box and the primitive it holds.
    pub closed spec fn pre_order(self) -> Seq<(AABB, Option<usize>)>
        decreases self,
    {
        let own = seq![(self.bbox, self.hittable)];
        match (self.left, self.right) {
            (Some(l), Some(r)) => own + l.pre_order() + r.pre_order(),
            (Some(l), None) => own + l.pre_order(),
            (None, Some(r)) => own + r.pre_order(),
            (None, None) => own,
        }
    }

    /// The tests follow a scene model: the tree is well formed over `boxes`,
    /// and both tests answer as `boxes` and `roots` say.
    pub open spec fn follows<R, B: Fn(AABB, Interval) -> bool, L: Fn(usize, Interval) -> Option<(i64, R)>>(
        self,
        box_hit: B,
        leaf_hit: L,
        boxes: Seq<AABB>,
        roots: Seq<Seq<int>>,
    ) -> bool {
        &&& self.wf_for(boxes)
        &&& roots.len() == boxes.len()
        &&& leaf_model(leaf_hit, roots)
        &&& box_model(box_hit, boxes, roots)
    }

    proof fn lemma_leaves_enclosed(self, boxes: Seq<AABB>)
        requires
            self.wf_for(boxes),
        ensures
            forall|i: int| 0 <= i < self.leaves().len() ==> {
                &&& #[trigger] self.leaves()[i] < boxes.len()
                &&& self.bbox.encloses(boxes[self.leaves()[i] as int])
            },
        decreases self,
    {
        match (self.left, self.right) {
            (Some(l), Some(r)) => {
                l.lemma_leaves_enclosed(boxes);
                r.lemma_leaves_enclosed(boxes);
                lemma_box_union_encloses(l.bbox, r.bbox);
                assert forall|i: int| 0 <= i < self.leaves().len() implies {
                    &&& #[trigger] self.leaves()[i] < boxes.len()
                    &&& self.bbox.encloses(boxes[self.leaves()[i] as int])
                } by {
                    if i < l.leaves().len() {
                        assert(self.leaves()[i] == l.leaves()[i]);
                        lemma_encloses_trans(self.bbox, l.bbox, boxes[self.leaves()[i] as int]);
                    } else {
                        assert(self.leaves()[i] == r.leaves()[i - l.leaves().len()]);
                        lemma_encloses_trans(self.bbox, r.bbox, boxes[self.leaves()[i] as int]);
                    }
                }
            },
            _ => {
                match self.hittable {
                    Some(k) => {
                        assert(self.leaves() == seq![k]);
                    },
                    None => {},
                }
            },
        }
    }

    fn leaf(boxes: &Vec<AABB>, k: usize) -> (r: BVH)
        requires
            k < boxes@.len(),
        ensures
            r.wf_for(boxes@),
            r.leaves() == seq![k],
            r.sentinels() == 0,
            r.left is None && r.right is None && r.hittable == Some(k),
    {
        BVH { left: None, right: None, bbox: boxes[k], hittable: Some(k) }
    }

    /// Builds the hierarchy over the primitives `ids`: none gives a sentinel
    /// leaf, one a leaf, two a node over two leaves; more are sorted along an
    /// axis drawn at random by the lower bounds of their boxes and split at
    /// the middle, each half built the same way.
    fn new(boxes: &Vec<AABB>, ids: Vec<usize>) -> (r: BVH)
        requires
            forall|i: int| 0 <= i < ids@.len() ==> ids@[i] < boxes@.len(),
        ensures
            r.wf_for(boxes@),
            r.leaves().to_multiset() == ids@.to_multiset(),
            ids@.len() == 0 ==> r.is_sentinel(),
            ids@.len() > 0 ==> r.sentinels() == 0,
        decreases ids@.len(),
    {
        broadcast use vstd::seq_lib::group_to_multiset_ensures;
        let axis = random_axis();
        let n = ids.len();
        if n == 0 {
            let r = BVH { left: None, right: None, bbox: AABB::empty(), hittable: None };
            assert(r.leaves() =~= ids@);
            r
        } else if n == 1 {
            let r = Self::leaf(boxes, ids[0]);
            assert(r.leaves() =~= ids@);
            r
        } else if n == 2 {
            let left = Self::leaf(boxes, ids[0]);
            let right = Self::leaf(boxes, ids[1]);
            let bbox = AABB::from_aabb(&left.bbox, &right.bbox);
            let r = BVH { left: Some(Box::new(left)), right: Some(Box::new(right)), bbox, hittable: None };
            assert(r.leaves() =~= ids@);
            r
        } else {
            let mut ids = ids;
            let ghost unsorted = ids@;
            sort_by_axis_min(&mut ids, boxes, axis);
            proof {
                vstd::seq_lib::to_multiset_len(unsorted);
                vstd::seq_lib::to_multiset_len(ids@);
            }
            let mid = n / 2;
            let ghost sorted = ids@;
            let right_ids = ids.split_off(mid);
            let left_ids = ids;
            proof {
                assert(sorted =~= left_ids@ + right_ids@);
                vstd::seq_lib::lemma_multiset_commutative(left_ids@, right_ids@);
            }
            let left = Self::new(boxes, left_ids);
            let right = Self::new(boxes, right_ids);
            let bbox = AABB::from_aabb(&left.bbox, &right.bbox);
            let r = BVH { left: Some(Box::new(left)), right: Some(Box::new(right)), bbox, hittable: None };
            proof {
                vstd::seq_lib::lemma_multiset_commutative(left.leaves(), right.leaves());
            }
            r
        }
    }

    /// Builds the hierarchy over all primitives of `hittable_list`. Each
    /// primitive is held by exactly one leaf; an empty list gives a single
    /// sentinel leaf.
    pub fn from_hittable_list<H>(hittable_list: &HittablesList<H>) -> (r: BVH)
        ensures
            r.wf_for(hittable_list.boxes_view()),
            r.leaves().to_multiset() == index_range(hittable_list.items().len()).to_multiset(),
            hittable_list.items().len() == 0 ==> r.is_sentinel(),
            hittable_list.items().len() > 0 ==> r.sentinels() == 0,
    {
        proof {
            use_type_invariant(hittable_list);
        }
        let n = hittable_list.boxes.len();
        let mut ids: Vec<usize> = Vec::new();
        let mut i: usize = 0;
        while i < n
            invariant
                i <= n,
                ids@ == index_range(i as nat),
            decreases n - i,
        {
            ids.push(i);
            i = i + 1;
            assert(ids@ =~= index_range(i as nat));
        }
        Self::new(&hittable_list.boxes, ids)
    }

    /// The nearest hit along a ray strictly inside `valid_t_interval`.
    /// `box_hit` tests a node's box, `leaf_hit` a primitive. A leaf asks its
    /// primitive directly (a sentinel misses); an internal node whose box is
    /// missed reports nothing, else it asks its left child, then its right
    /// child on the interval narrowed to the left hit, and the right hit wins
    /// if there is one. Under any scene model that the two tests follow, the
    /// result is the nearest hit among the primitives of the leaves.
    pub fn hit<R, B: Fn(AABB, Interval) -> bool, L: Fn(usize, Interval) -> Option<(i64, R)>>(
        &self,
        box_hit: &B,
        leaf_hit: &L,
        valid_t_interval: Interval,
    ) -> (r: Option<(i64, R)>)
        requires
            forall|b: AABB, iv: Interval| box_hit.requires((b, iv)),
            forall|k: usize, iv: Interval| leaf_hit.requires((k, iv)),
        ensures
            self.is_sentinel() ==> r is None,
            forall|boxes: Seq<AABB>, roots: Seq<Seq<int>>|
                #[trigger] self.follows(*box_hit, *leaf_hit, boxes, roots) ==> t_of(r)
                    == nearest_among(
                    self.leaves(),
                    roots,
                    valid_t_interval.min as int,
                    valid_t_interval.max as int,
                ),
        decreases self,
    {
        let ghost lo = valid_t_interval.min as int;
        let ghost hi = valid_t_interval.max as int;
        match (&self.left, &self.right) {
            (Some(left), Some(right)) => {
                if !box_hit(self.bbox, valid_t_interval) {
                    proof {
                        assert forall|boxes: Seq<AABB>, roots: Seq<Seq<int>>|
                            #[trigger] self.follows(*box_hit, *leaf_hit, boxes, roots) implies nearest_among(
                            self.leaves(),
                            roots,
                            lo,
                            hi,
                        ) is None by {
                            self.lemma_leaves_enclosed(boxes);
                            assert(call_ensures(*box_hit, (self.bbox, valid_t_interval), false));
                            assert forall|i: int| 0 <= i < self.leaves().len() implies first_root(
                                #[trigger] roots[self.leaves()[i] as int],
                                lo,
                                hi,
                            ) is None by {
                                assert(self.bbox.encloses(boxes[self.leaves()[i] as int]));
                            }
                            lemma_nearest_none(self.leaves(), roots, lo, hi);
                        }
                    }
                    return None;
                }
                let left_hit = left.hit(box_hit, leaf_hit, valid_t_interval);
                match left_hit {
                    Some(lh) => {
                        let t = lh.0;
                        let narrowed = valid_t_interval.narrowed(t);
                        let right_hit = right.hit(box_hit, leaf_hit, narrowed);
                        let ghost rt = t_of(right_hit);
                        let result = match right_hit {
                            Some(rh) => Some(rh),
                            None => Some(lh),
                        };
                        proof {
                            assert forall|boxes: Seq<AABB>, roots: Seq<Seq<int>>|
                                #[trigger] self.follows(*box_hit, *leaf_hit, boxes, roots) implies t_of(result)
                                    == nearest_among(self.leaves(), roots, lo, hi) by {
                                assert(left.follows(*box_hit, *leaf_hit, boxes, roots));
                                assert(right.follows(*box_hit, *leaf_hit, boxes, roots));
                                lemma_nearest_inside(left.leaves(), roots, lo, hi);
                                lemma_nearest_narrow(right.leaves(), roots, lo, hi, t as int);
                                lemma_nearest_concat(left.leaves(), right.leaves(), roots, lo, hi);
                                assert(rt == below(nearest_among(right.leaves(), roots, lo, hi), t as int));
                            }
                        }
                        result
                    },
                    None => {
                        let right_hit = right.hit(box_hit, leaf_hit, valid_t_interval);
                        proof {
                            assert forall|boxes: Seq<AABB>, roots: Seq<Seq<int>>|
                                #[trigger] self.follows(*box_hit, *leaf_hit, boxes, roots) implies t_of(right_hit)
                                    == nearest_among(self.leaves(), roots, lo, hi) by {
                                assert(left.follows(*box_hit, *leaf_hit, boxes, roots));
                                assert(right.follows(*box_hit, *leaf_hit, boxes, roots));
                                lemma_nearest_concat(left.leaves(), right.leaves(), roots, lo, hi);
                            }
                        }
                        right_hit
                    },
                }
            },
            _ => {
                match self.hittable {
                    Some(k) => {
                        let r = leaf_hit(k, valid_t_interval);
                        proof {
                            assert forall|boxes: Seq<AABB>, roots: Seq<Seq<int>>|
                                #[trigger] self.follows(*box_hit, *leaf_hit, boxes, roots) implies t_of(r)
                                    == nearest_among(self.leaves(), roots, lo, hi) by {
                                assert(call_ensures(*leaf_hit, (k, valid_t_interval), r));
                                assert(self.leaves() == seq![k]);
                                assert(self.leaves().drop_last() =~= Seq::<usize>::empty());
                                assert(nearest_among(Seq::<usize>::empty(), roots, lo, hi) is None);
                                assert(self.left is None && self.right is None);
                                assert(k < roots.len());
                                assert(t_of(r) == first_root(roots[k as int], lo, hi));
                            }
                        }
                        r
                    },
                    None => None,
                }
            },
        }
    }

    /// The records of the hierarchy in pre-order: each node's box, and the
    /// primitive that it holds if it is a leaf.
    pub fn pre_order_debug(root: &Self) -> (r: Vec<(AABB, Option<usize>)>)
        ensures
            r@ == root.pre_order(),
        decreases root,
    {
        let mut s: Vec<(AABB, Option<usize>)> = Vec::new();
        s.push((root.bbox, root.hittable));
        if let Some(left) = &root.left {
            let mut l = Self::pre_order_debug(left);
            s.append(&mut l);
        }
        if let Some(right) = &root.right {
            let mut r = Self::pre_order_debug(right);
            s.append(&mut r);
        }
        proof {
            assert(s@ =~= root.pre_order());
        }
        s
    }
}

/// A hierarchy built over a list of `n` primitives reports the same nearest
/// hit as a linear scan of that list: whatever the scene model and the
/// interval, the nearest hit among its leaves is the nearest hit among all
/// `n` primitives.
/// With the contracts of `BVH::hit` and `HittablesList::hit`, both queries
/// return a hit at the same parameter, or both miss.
pub proof fn lemma_bvh_matches_scan(bvh: BVH, n: nat, roots: Seq<Seq<int>>, lo: int, hi: int)
    requires
        bvh.leaves().to_multiset() == index_range(n).to_multiset(),
    ensures
        nearest_among(bvh.leaves(), roots, lo, hi) == nearest_among(index_range(n), roots, lo, hi),
{
    broadcast use vstd::seq_lib::group_to_multiset_ensures;
    let all = index_range(n);
    assert forall|k: usize| bvh.leaves().contains(k) <==> all.contains(k) by {
        vstd::seq_lib::to_multiset_contains(bvh.leaves(), k);
        vstd::seq_lib::to_multiset_contains(all, k);
    }
    lemma_nearest_same_members(bvh.leaves(), all, roots, lo, hi);
}

/// A hierarchy built over `n` primitives has exactly `n` leaves that hold a
/// primitive, each of the `n` primitives in exactly one of them.
pub proof fn lemma_bvh_leaf_count(bvh: BVH, n: nat)
    requires
        n <= usize::MAX,
        bvh.leaves().to_multiset() == index_range(n).to_multiset(),
    ensures
        bvh.leaves().len() == n,
        forall|k: usize| k < n ==> #[trigger] bvh.leaves().to_multiset().count(k) == 1,
{
    broadcast use vstd::seq_lib::group_to_multiset_ensures;
    vstd::seq_lib::to_multiset_len(bvh.leaves());
    vstd::seq_lib::to_multiset_len(index_range(n));
    assert forall|k: usize| k < n implies #[trigger] bvh.leaves().to_multiset().count(k) == 1 by {
        lemma_range_count(n, k);
    }
}

proof fn lemma_range_count(n: nat, k: usize)
    requires
        k < n,
        n <= usize::MAX,
    ensures
        index_range(n).to_multiset().count(k) == 1,
    decreases n,
{
    broadcast use vstd::seq_lib::group_to_multiset_ensures;
    let prev = (n - 1) as nat;
    assert(index_range(n) =~= index_range(prev).push((n - 1) as usize));
    if k < prev {
        lemma_range_count(prev, k);
        assert(index_range(n).to_multiset() =~= index_range(prev).to_multiset().insert((n - 1) as usize));
    } else {
        assert(!index_range(prev).contains(k));
        vstd::seq_lib::to_multiset_contains(index_range(prev), k);
    }
}

} // verus!
