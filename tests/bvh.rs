use rust_simple_raytracer::sphere::pick_root;
use rust_simple_raytracer::{HittablesList, Interval, AABB, BVH};

fn key(x: f64) -> i64 {
    let b = x.to_bits() as i64;
    if b < 0 {
        b ^ i64::MAX
    } else {
        b
    }
}

fn value_of(k: i64) -> f64 {
    let b = if k < 0 { k ^ i64::MAX } else { k };
    f64::from_bits(b as u64)
}

#[derive(Clone, Copy)]
struct Ball {
    center: [f64; 3],
    radius: f64,
}

fn ball_box(b: &Ball) -> AABB {
    let r = b.radius;
    AABB::from_points(
        (key(b.center[0] - r), key(b.center[1] - r), key(b.center[2] - r)),
        (key(b.center[0] + r), key(b.center[1] + r), key(b.center[2] + r)),
    )
}

struct Ray {
    origin: [f64; 3],
    direction: [f64; 3],
}

fn dot(a: [f64; 3], b: [f64; 3]) -> f64 {
    a[0] * b[0] + a[1] * b[1] + a[2] * b[2]
}

fn ball_hit(b: &Ball, ray: &Ray, iv: Interval) -> Option<i64> {
    let oc = [
        ray.origin[0] - b.center[0],
        ray.origin[1] - b.center[1],
        ray.origin[2] - b.center[2],
    ];
    let a = dot(ray.direction, ray.direction);
    let half_b = dot(oc, ray.direction);
    let c = dot(oc, oc) - b.radius * b.radius;
    let disc = half_b * half_b - a * c;
    if disc < 0.0 {
        return None;
    }
    let sq = disc.sqrt();
    pick_root(key((-half_b - sq) / a), key((-half_b + sq) / a), iv)
}

fn slab_hit(bbox: AABB, ray: &Ray, iv: Interval) -> bool {
    let mut lo = value_of(iv.min);
    let mut hi = value_of(iv.max);
    for axis in 0..3u8 {
        let slab = bbox.axis(axis);
        let d = ray.direction[axis as usize];
        let o = ray.origin[axis as usize];
        let (smin, smax) = (value_of(slab.min), value_of(slab.max));
        if d.abs() < 1e-12 {
            if o < smin || o > smax {
                return false;
            }
            continue;
        }
        let t0 = (smin - o) / d;
        let t1 = (smax - o) / d;
        let (t0, t1) = if t0 < t1 { (t0, t1) } else { (t1, t0) };
        if t0 > lo {
            lo = t0;
        }
        if t1 < hi {
            hi = t1;
        }
        if hi <= lo {
            return false;
        }
    }
    true
}

fn scene(balls: &[Ball]) -> HittablesList<Ball> {
    let mut list = HittablesList::new();
    for b in balls {
        list.add(*b, ball_box(b));
    }
    list
}

fn bvh_nearest(bvh: &BVH, list: &HittablesList<Ball>, ray: &Ray, iv: Interval) -> Option<(i64, usize)> {
    let boxes = |b: AABB, i: Interval| slab_hit(b, ray, i);
    let leaves = |k: usize, i: Interval| ball_hit(list.get(k), ray, i).map(|t| (t, k));
    bvh.hit(&boxes, &leaves, iv)
}

fn scan_nearest(list: &HittablesList<Ball>, ray: &Ray, iv: Interval) -> Option<(i64, usize)> {
    let leaves = |k: usize, i: Interval| ball_hit(list.get(k), ray, i).map(|t| (t, k));
    list.hit(&leaves, iv)
}

fn leaf_indices(bvh: &BVH) -> Vec<usize> {
    BVH::pre_order_debug(bvh).iter().filter_map(|(_, h)| *h).collect()
}

struct Lcg(u64);

impl Lcg {
    fn next(&mut self) -> f64 {
        self.0 = self.0.wrapping_mul(6364136223846793005).wrapping_add(1442695040888963407);
        ((self.0 >> 11) as f64) / ((1u64 << 53) as f64)
    }
}

#[test]
fn test_bvh_from_hittable_list() {
    // one unit sphere and three primitives with empty bounds
    let mut list: HittablesList<u8> = HittablesList::new();
    list.add(1, ball_box(&Ball { center: [0.0, 0.0, 0.0], radius: 1.0 }));
    list.add(0, AABB::empty());
    list.add(0, AABB::empty());
    list.add(0, AABB::empty());
    let bvh = BVH::from_hittable_list(&list);
    let records = BVH::pre_order_debug(&bvh);
    let sphere_leaf = records.iter().find(|(_, h)| *h == Some(0)).unwrap();
    assert_eq!(sphere_leaf.0.x.min, key(-1.0));
    assert_eq!(*list.get(0), 1);
}

#[test]
fn test_bvh_hit() {
    let list = scene(&[
        Ball { center: [0.0, 0.0, -1.0], radius: 0.5 },
        Ball { center: [0.0, 0.0, -3.0], radius: 1.0 },
        Ball { center: [0.0, 0.0, -5.0], radius: 1.0 },
    ]);
    let bvh = BVH::from_hittable_list(&list);
    let ray = Ray { origin: [0.0, 0.0, 0.0], direction: [0.0, 0.0, -1.0] };
    let hit = bvh_nearest(&bvh, &list, &ray, Interval::new(key(0.001), key(f64::INFINITY))).unwrap();
    assert_eq!(value_of(hit.0), 0.5);
    assert_eq!(hit.1, 0);
}

#[test]
fn bvh_leaves_hold_each_primitive_once() {
    let mut rng = Lcg(7);
    for n in 0..12usize {
        let balls: Vec<Ball> = (0..n)
            .map(|_| Ball {
                center: [rng.next() * 10.0 - 5.0, rng.next() * 10.0 - 5.0, rng.next() * 10.0 - 5.0],
                radius: 0.1 + rng.next(),
            })
            .collect();
        let list = scene(&balls);
        let bvh = BVH::from_hittable_list(&list);
        let mut leaves = leaf_indices(&bvh);
        leaves.sort();
        assert_eq!(leaves, (0..n).collect::<Vec<usize>>());
    }
}

#[test]
fn empty_bvh_is_a_sentinel_that_misses() {
    let list: HittablesList<Ball> = HittablesList::new();
    let bvh = BVH::from_hittable_list(&list);
    let records = BVH::pre_order_debug(&bvh);
    assert_eq!(records.len(), 1);
    assert_eq!(records[0], (AABB::empty(), None));
    let ray = Ray { origin: [0.0, 0.0, 0.0], direction: [0.0, 0.0, -1.0] };
    assert!(bvh_nearest(&bvh, &list, &ray, Interval::universe()).is_none());
}

#[test]
fn internal_nodes_bound_their_children() {
    let list = scene(&[
        Ball { center: [0.0, 0.0, -1.0], radius: 0.5 },
        Ball { center: [4.0, 1.0, -3.0], radius: 1.0 },
    ]);
    let bvh = BVH::from_hittable_list(&list);
    let records = BVH::pre_order_debug(&bvh);
    assert_eq!(records.len(), 3);
    assert_eq!(records[0].1, None);
    assert_eq!(records[0].0, list.bbox());
    assert_eq!(records[1], (list.bbox_of(0), Some(0)));
    assert_eq!(records[2], (list.bbox_of(1), Some(1)));
}

#[test]
fn bvh_nearest_matches_linear_scan() {
    let mut rng = Lcg(12345);
    for _scene in 0..40 {
        let n = 1 + (rng.next() * 30.0) as usize;
        let balls: Vec<Ball> = (0..n)
            .map(|_| Ball {
                center: [rng.next() * 8.0 - 4.0, rng.next() * 8.0 - 4.0, -2.0 - rng.next() * 8.0],
                radius: 0.2 + rng.next() * 0.8,
            })
            .collect();
        let list = scene(&balls);
        let bvh = BVH::from_hittable_list(&list);
        for _ray in 0..25 {
            let ray = Ray {
                origin: [0.0, 0.0, 0.0],
                direction: [rng.next() - 0.5, rng.next() - 0.5, -1.0],
            };
            let iv = Interval::new(key(0.001), key(f64::INFINITY));
            let a = bvh_nearest(&bvh, &list, &ray, iv).map(|h| h.0);
            let b = scan_nearest(&list, &ray, iv).map(|h| h.0);
            assert_eq!(a, b);
        }
    }
}

#[test]
fn scan_reports_nearest_of_three() {
    let list = scene(&[
        Ball { center: [0.0, 0.0, -5.0], radius: 1.0 },
        Ball { center: [0.0, 0.0, -1.0], radius: 0.5 },
        Ball { center: [0.0, 0.0, -3.0], radius: 1.0 },
    ]);
    let ray = Ray { origin: [0.0, 0.0, 0.0], direction: [0.0, 0.0, -1.0] };
    let hit = scan_nearest(&list, &ray, Interval::new(key(0.001), key(f64::INFINITY))).unwrap();
    assert_eq!(value_of(hit.0), 0.5);
    assert_eq!(hit.1, 1);
    let far = scan_nearest(&list, &ray, Interval::new(key(1.0), key(f64::INFINITY))).unwrap();
    assert_eq!(value_of(far.0), 1.5);
    assert_eq!(far.1, 1);
    assert!(scan_nearest(&list, &ray, Interval::new(key(6.5), key(9.0))).is_none());
}

#[test]
fn bvh_leaves_follow_box_order() {
    // placed along the diagonal in reverse, so every axis orders them 3, 2, 1, 0
    let list = scene(&[
        Ball { center: [3.0, 3.0, 3.0], radius: 0.1 },
        Ball { center: [2.0, 2.0, 2.0], radius: 0.1 },
        Ball { center: [1.0, 1.0, 1.0], radius: 0.1 },
        Ball { center: [0.0, 0.0, 0.0], radius: 0.1 },
    ]);
    let bvh = BVH::from_hittable_list(&list);
    assert_eq!(leaf_indices(&bvh), vec![3, 2, 1, 0]);
    let records = BVH::pre_order_debug(&bvh);
    assert_eq!(records.len(), 7);
    assert_eq!(records[0].0, list.bbox());
}
