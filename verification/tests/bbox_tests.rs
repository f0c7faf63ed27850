//! The exact box algebra and the rational ray-slab test on edge cases.

use rt_accel::accel::isqrt;
use rt_accel::bbox::{box_at_time, ray_box_interval, BBox, MAX_T_NUM};
use rt_accel::math::{Point, Vector};

fn bb(min: (i64, i64, i64), max: (i64, i64, i64)) -> BBox {
    BBox::from_points(
        Point::new(min.0, min.1, min.2),
        Point::new(max.0, max.1, max.2),
    )
}

#[test]
fn union_and_containment() {
    let a = bb((0, 0, 0), (2, 2, 2));
    let b = bb((1, -3, 1), (5, 1, 2));
    let u = a.union(&b);
    assert_eq!(u, bb((0, -3, 0), (5, 2, 2)));
    assert!(u.contains_box(&a));
    assert!(u.contains_box(&b));
    assert!(!a.contains_box(&b));
    assert!(a.contains_point(Point::new(1, 1, 1)));
    assert!(!a.contains_point(Point::new(3, 1, 1)));
}

#[test]
fn slab_test_axis_aligned() {
    let b = bb((0, 0, 0), (2, 2, 2));
    let o = Point::new(1, 1, 10);
    let d = Vector::new(0, 0, -1);
    // Hit with no distance limit: entry at t = 8, exactly.
    let r = ray_box_interval(&b, o, d, MAX_T_NUM, 1).unwrap();
    assert_eq!(r.0 * 1, r.1 * 8);
    // Too short a distance limit: a miss.
    assert!(ray_box_interval(&b, o, d, 7, 1).is_none());
    // Exactly reaching the entry plane: a hit (inclusive bounds).
    assert!(ray_box_interval(&b, o, d, 8, 1).is_some());
}

#[test]
fn slab_test_zero_component() {
    let b = bb((0, 0, 0), (2, 2, 2));
    // Direction parallel to the box on z, origin inside the z-slab.
    assert!(ray_box_interval(
        &b,
        Point::new(-5, 1, 1),
        Vector::new(1, 0, 0),
        MAX_T_NUM,
        1
    )
    .is_some());
    // Same direction but origin outside the z-slab: can never enter.
    assert!(ray_box_interval(
        &b,
        Point::new(-5, 1, 5),
        Vector::new(1, 0, 0),
        MAX_T_NUM,
        1
    )
    .is_none());
}

#[test]
fn slab_test_behind_origin() {
    let b = bb((0, 0, 0), (2, 2, 2));
    // The box lies behind the ray: no nonnegative parameter reaches it.
    assert!(ray_box_interval(
        &b,
        Point::new(1, 1, 10),
        Vector::new(0, 0, 1),
        MAX_T_NUM,
        1
    )
    .is_none());
    // An origin inside the box is a hit at parameter zero.
    let r = ray_box_interval(&b, Point::new(1, 1, 1), Vector::new(0, 0, 1), MAX_T_NUM, 1).unwrap();
    assert_eq!(r.0, 0);
}

#[test]
fn slab_test_diagonal_exact_fraction() {
    let b = bb((4, 6, 10), (6, 9, 14));
    // Direction (2, 3, 6) from the origin enters this box at t = 2
    // exactly (the x and y slabs both open there).
    let r = ray_box_interval(
        &b,
        Point::new(0, 0, 0),
        Vector::new(2, 3, 6),
        MAX_T_NUM,
        1,
    )
    .unwrap();
    assert_eq!(r.0 * 1, r.1 * 2);

    // Shifted one unit along x, the box is missed entirely.
    let b2 = bb((14, 6, 10), (16, 9, 14));
    assert!(ray_box_interval(&b2, Point::new(0, 0, 0), Vector::new(2, 3, 6), MAX_T_NUM, 1)
        .is_none());
}

#[test]
fn time_sample_selection() {
    let s = vec![bb((0, 0, 0), (1, 1, 1)), bb((10, 0, 0), (11, 1, 1)), bb((20, 0, 0), (21, 1, 1))];
    // At time zero the conservative box unites the first two samples; at
    // full time it unites the last sample with itself.
    let early = box_at_time(&s, 0);
    assert_eq!(early, bb((0, 0, 0), (11, 1, 1)));
    let late = box_at_time(&s, 65536);
    assert_eq!(late, bb((20, 0, 0), (21, 1, 1)));
}

#[test]
fn isqrt_exact() {
    for (x, r) in [
        (0u64, 0u64),
        (1, 1),
        (3, 1),
        (4, 2),
        (15, 3),
        (16, 4),
        (65535, 255),
        (65536, 256),
        (u64::MAX, 4294967295),
    ] {
        assert_eq!(isqrt(x), r);
    }
}
