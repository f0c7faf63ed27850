//! Building and traversing the binary hierarchy on concrete scenes.

use rt_accel::bbox::BBox;
use rt_accel::box_test::BoxTester;
use rt_accel::bvh::BinaryBVH;
use rt_accel::bvh4::QuadBVH;
use rt_accel::math::{Point, Vector};
use rt_accel::ray::AccelRay;

fn cube(x: i64, y: i64, z: i64, side: i64) -> BBox {
    BBox::from_points(Point::new(x, y, z), Point::new(x + side, y + side, z + side))
}

fn ray(id: u32, orig: (i64, i64, i64), toward: (i64, i64, i64), occlusion: bool) -> AccelRay {
    let dir = Vector::new(toward.0 - orig.0, toward.1 - orig.1, toward.2 - orig.2);
    AccelRay::new(id, Point::new(orig.0, orig.1, orig.2), dir, 0, occlusion)
}

/// Eight unit cubes at the grid offsets (0,0,0) through (1,1,1), with all
/// coordinates doubled so the half-unit ray origin stays integral: build
/// with a leaf threshold of one, check the root bounds, and check that a
/// ray down the (x, y) = (0.5, 0.5) column hits exactly the two cubes of
/// that column.
#[test]
fn grid_of_cubes_scene() {
    let mut table: Vec<BBox> = Vec::new();
    for i in 0..2 {
        for j in 0..2 {
            for k in 0..2 {
                table.push(cube(2 * i, 2 * j, 2 * k, 2));
            }
        }
    }
    let mut objects: Vec<usize> = (0..8).collect();
    let tree = BinaryBVH::build(&mut objects, 1, &table, 1);
    let root = tree.bounds();
    assert_eq!(root.len(), 1);
    assert_eq!(root[0], cube(0, 0, 0, 4));

    // Direct slab tests: the ray meets exactly the two cubes sharing the
    // column, out of all eight.
    let r = ray(0, (1, 1, 20), (1, 1, -20), false);
    let mut hit_objs: Vec<usize> = Vec::new();
    for (o, b) in table.iter().enumerate() {
        if rt_accel::bbox::ray_box_interval(b, r.orig, r.dir, r.max_t_num, r.max_t_den).is_some() {
            hit_objs.push(o);
        }
    }
    assert_eq!(hit_objs, vec![0, 1]);

    // Traversal reports the closer of the two as the closest hit.
    let mut rays = vec![r];
    let mut tester = BoxTester::new(table.clone(), 1, 1);
    tree.traverse(&mut rays, &objects, &mut tester);
    let rec = tester.records[0];
    assert!(rec.hit);
    // Entry at z = 4 along direction (0, 0, -40): t = 16/40.
    assert_eq!(rec.t_num * 40, rec.t_den * 16);
    // The closer cube is the one with the higher z offset: grid (0,0,1).
    assert_eq!(rec.obj, 1);
}

/// A single object: the hierarchy is exactly one leaf node (the root),
/// and a ray that meets its bounds reaches the leaf callback exactly
/// once.
#[test]
fn single_object_scene() {
    let table = vec![cube(0, 0, 0, 2)];
    let mut objects: Vec<usize> = vec![0];
    let tree = BinaryBVH::build(&mut objects, 3, &table, 1);
    assert_eq!(tree.nodes.len(), 1);
    assert_eq!(tree.bounds()[0], cube(0, 0, 0, 2));

    let mut rays = vec![ray(0, (1, 1, 10), (1, 1, -10), false)];
    let mut tester = BoxTester::new(table.clone(), 1, 1);
    tree.traverse(&mut rays, &objects, &mut tester);
    assert_eq!(tester.visits, vec![0]);
    assert!(tester.records[0].hit);

    // A ray that misses the bounds never reaches the callback.
    let mut rays2 = vec![ray(0, (10, 10, 10), (20, 20, 20), false)];
    let mut tester2 = BoxTester::new(table.clone(), 1, 1);
    tree.traverse(&mut rays2, &objects, &mut tester2);
    assert_eq!(tester2.visits.len(), 0);
    assert!(!tester2.records[0].hit);

    // The 4-wide collapse of the single-leaf tree behaves the same.
    let quad = QuadBVH::from_binary(&tree);
    let mut rays3 = vec![ray(0, (1, 1, 10), (1, 1, -10), false)];
    let mut tester3 = BoxTester::new(table.clone(), 1, 1);
    quad.traverse(&mut rays3, &objects, &mut tester3);
    assert_eq!(tester3.visits, vec![0]);
    assert!(tester3.records[0].hit);
}

fn scatter_scene() -> Vec<BBox> {
    vec![
        cube(0, 0, 0, 3),
        cube(10, 0, 0, 4),
        cube(-8, 2, 1, 2),
        cube(4, 9, -5, 3),
        cube(1, -7, 6, 5),
        cube(12, 11, 10, 2),
        cube(-3, -3, -12, 4),
        cube(6, 1, 14, 3),
    ]
}

fn scatter_rays() -> Vec<AccelRay> {
    vec![
        ray(0, (1, 1, 30), (1, 1, -30), false),
        ray(1, (-20, 3, 2), (20, 3, 2), false),
        ray(2, (11, 40, 1), (12, -40, 1), false),
        ray(3, (2, 2, 2), (100, 90, 80), false),
        ray(4, (-15, -15, -15), (15, 15, 15), true),
        ray(5, (50, 50, 50), (60, 60, 60), false),
        ray(6, (5, -20, 8), (3, 20, 7), true),
    ]
}

/// Traversal correctness: against a batch of synthetic rays and boxes,
/// the tree traversal must report the same per-ray closest hit, object
/// and occlusion outcome as brute-force testing every ray against every
/// box (a single-leaf hierarchy visits every object, which is exactly
/// that brute force).
#[test]
fn traversal_matches_brute_force() {
    let table = scatter_scene();
    let n = table.len();

    let mut objects_a: Vec<usize> = (0..n).collect();
    let tree = BinaryBVH::build(&mut objects_a, 1, &table, 1);
    let mut rays_a = scatter_rays();
    let mut tester_a = BoxTester::new(table.clone(), 1, rays_a.len());
    tree.traverse(&mut rays_a, &objects_a, &mut tester_a);

    let mut objects_b: Vec<usize> = (0..n).collect();
    let brute = BinaryBVH::build(&mut objects_b, n, &table, 1);
    assert_eq!(brute.nodes.len(), 1);
    let mut rays_b = scatter_rays();
    let mut tester_b = BoxTester::new(table.clone(), 1, rays_b.len());
    brute.traverse(&mut rays_b, &objects_b, &mut tester_b);

    // Per-identity outcomes agree.  For ordinary rays the full closest
    // hit record is canonical; for occlusion rays only the done outcome
    // is (whichever box satisfies them first depends on visit order).
    for id in 0..rays_a.len() as u32 {
        let ra = rays_a.iter().find(|r| r.id == id).unwrap();
        let rb = rays_b.iter().find(|r| r.id == id).unwrap();
        assert_eq!(ra.done, rb.done);
        if !ra.occlusion {
            assert_eq!(tester_a.records[id as usize], tester_b.records[id as usize]);
            // Equal exact remaining-distance fractions.
            assert_eq!(
                (ra.max_t_num as i128) * (rb.max_t_den as i128),
                (rb.max_t_num as i128) * (ra.max_t_den as i128)
            );
        } else {
            assert_eq!(tester_a.records[id as usize].hit, tester_b.records[id as usize].hit);
        }
    }
}

/// The 4-wide collapse traverses to the same results as the binary tree
/// it came from.
#[test]
fn quad_traversal_matches_binary() {
    let table = scatter_scene();
    let n = table.len();
    let mut objects: Vec<usize> = (0..n).collect();
    let tree = BinaryBVH::build(&mut objects, 1, &table, 1);
    let quad = QuadBVH::from_binary(&tree);

    let mut rays_a = scatter_rays();
    let mut tester_a = BoxTester::new(table.clone(), 1, rays_a.len());
    tree.traverse(&mut rays_a, &objects, &mut tester_a);

    let mut rays_b = scatter_rays();
    let mut tester_b = BoxTester::new(table.clone(), 1, rays_b.len());
    quad.traverse(&mut rays_b, &objects, &mut tester_b);

    for id in 0..rays_a.len() as u32 {
        let ra = rays_a.iter().find(|r| r.id == id).unwrap();
        let rb = rays_b.iter().find(|r| r.id == id).unwrap();
        assert_eq!(ra.done, rb.done);
        if !ra.occlusion {
            assert_eq!(tester_a.records[id as usize], tester_b.records[id as usize]);
        } else {
            assert_eq!(tester_a.records[id as usize].hit, tester_b.records[id as usize].hit);
        }
    }
}

/// Once an occlusion ray is marked done it takes no further part: its
/// distance limit never changes again and later leaves do not see it.
#[test]
fn occlusion_short_circuit() {
    let table = vec![cube(0, 0, 0, 2), cube(6, 0, 0, 2), cube(12, 0, 0, 2)];
    let mut objects: Vec<usize> = vec![0, 1, 2];
    let tree = BinaryBVH::build(&mut objects, 1, &table, 1);
    // An occlusion ray crossing all three boxes is satisfied by its first
    // hit and keeps its original (unbounded) distance limit.
    let r = ray(0, (-10, 1, 1), (30, 1, 1), true);
    let max_before = (r.max_t_num, r.max_t_den);
    let mut rays = vec![r];
    let mut tester = BoxTester::new(table.clone(), 1, 1);
    tree.traverse(&mut rays, &objects, &mut tester);
    assert!(rays[0].done);
    assert_eq!((rays[0].max_t_num, rays[0].max_t_den), max_before);
    // It was handed to at most one leaf per visited path before being
    // marked done; at least one leaf saw it.
    assert!(!tester.visits.is_empty());
}

/// Motion blur: an object whose box moves between two time samples is
/// met by a ray at the times where its conservative bounds lie, and
/// missed at times where they do not.
#[test]
fn time_sampled_bounds() {
    // Two time samples: near the origin at time 0, shifted far in +x at
    // time one.
    let table = vec![cube(0, 0, 0, 2), cube(100, 0, 0, 2)];
    let mut objects: Vec<usize> = vec![0];
    let tree = BinaryBVH::build(&mut objects, 1, &table, 2);
    let b = tree.bounds();
    assert_eq!(b.len(), 2);

    // A ray at time 0 down the origin column hits; the same ray at a
    // late time (conservative union still spans both samples here, with
    // only two samples) also hits; a ray far from both misses always.
    let mut rays = vec![AccelRay::new(
        0,
        Point::new(1, 1, 20),
        Vector::new(0, 0, -40),
        0,
        false,
    )];
    let mut tester = BoxTester::new(table.clone(), 2, 1);
    tree.traverse(&mut rays, &objects, &mut tester);
    assert!(tester.records[0].hit);

    let mut rays2 = vec![AccelRay::new(
        0,
        Point::new(300, 1, 20),
        Vector::new(0, 0, -40),
        65536,
        false,
    )];
    let mut tester2 = BoxTester::new(table.clone(), 2, 1);
    tree.traverse(&mut rays2, &objects, &mut tester2);
    assert!(!tester2.records[0].hit);
}
