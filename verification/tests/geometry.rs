//! Tests for the geometric primitives: boxes, planes, candidates, and the
//! exact slab test.

use kdtree_ray::aabb::{Vector3, AABB};
use kdtree_ray::candidate::{sort_candidates, Candidate};
use kdtree_ray::plane::{Dimension, DimensionMap, Plane};
use kdtree_ray::ray::Ray;

fn v(x: i64, y: i64, z: i64) -> Vector3 {
    Vector3::new(x, y, z)
}

fn bx(min: (i64, i64, i64), max: (i64, i64, i64)) -> AABB {
    AABB::new(v(min.0, min.1, min.2), v(max.0, max.1, max.2))
}

#[test]
fn aabb_volume_is_product_of_extents() {
    let b = bx((0, 0, 0), (2, 3, 4));
    assert_eq!(b.volume(), 24);
    let flat = bx((0, 0, 0), (2, 0, 4));
    assert_eq!(flat.volume(), 0);
}

#[test]
fn aabb_merge_takes_component_extremes() {
    let mut a = bx((0, -1, 0), (2, 2, 2));
    let b = bx((-3, 0, 1), (1, 5, 1));
    a.merge(&b);
    assert_eq!(a, bx((-3, -1, 0), (2, 5, 2)));
}

#[test]
fn merging_into_the_empty_box_yields_the_box() {
    let mut e = AABB::empty();
    let b = bx((-5, 0, 3), (7, 4, 9));
    e.merge(&b);
    assert_eq!(e, b);
}

#[test]
fn plane_cuts_only_strictly_inside() {
    let b = bx((0, 0, 0), (4, 4, 4));
    assert!(Plane::new_x(1).is_cutting(&b));
    assert!(Plane::new_y(3).is_cutting(&b));
    assert!(Plane::new_z(2).is_cutting(&b));
    // A boundary plane is degenerate and never cuts.
    assert!(!Plane::new_x(0).is_cutting(&b));
    assert!(!Plane::new_x(4).is_cutting(&b));
    assert!(!Plane::new_y(-1).is_cutting(&b));
    assert!(!Plane::new(Dimension::Z, 9).is_cutting(&b));
}

#[test]
fn dimension_map_holds_one_slot_per_axis() {
    let mut m: DimensionMap<usize> = Dimension::get_map(7);
    assert_eq!(m.get(Dimension::X), 7);
    assert_eq!(m.get(Dimension::Y), 7);
    assert_eq!(m.get(Dimension::Z), 7);
    m.set(Dimension::Y, 9);
    assert_eq!(m.get(Dimension::X), 7);
    assert_eq!(m.get(Dimension::Y), 9);
    assert_eq!(m.get(Dimension::Z), 7);
}

#[test]
fn gen_candidates_emits_six_faces() {
    let b = bx((1, 2, 3), (4, 5, 6));
    let cands = Candidate::gen_candidates(9, &b);
    assert_eq!(cands.len(), 6);
    let expected = [
        (Dimension::X, 1, true),
        (Dimension::X, 4, false),
        (Dimension::Y, 2, true),
        (Dimension::Y, 5, false),
        (Dimension::Z, 3, true),
        (Dimension::Z, 6, false),
    ];
    for (c, (dim, pos, left)) in cands.iter().zip(expected.iter()) {
        assert_eq!(c.dimension(), *dim);
        assert_eq!(c.position(), *pos);
        assert_eq!(c.is_left(), *left);
        assert_eq!(c.is_right(), !*left);
        assert_eq!(c.shape, 9);
    }
}

#[test]
fn candidates_sort_by_position_begins_first() {
    let mut cands = Vec::new();
    cands.push(Candidate::new(Plane::new_x(5), false, 0));
    cands.push(Candidate::new(Plane::new_x(1), true, 0));
    cands.push(Candidate::new(Plane::new_y(5), false, 1));
    // An end event at the same position as a begin event sorts after it.
    cands.push(Candidate::new(Plane::new_y(5), true, 2));
    let sorted = sort_candidates(cands);
    let key: Vec<(i64, bool)> = sorted.iter().map(|c| (c.position(), c.is_left())).collect();
    assert_eq!(key, vec![(1, true), (5, true), (5, false), (5, false)]);
}

#[test]
fn slab_test_hits_box_ahead() {
    let b = bx((0, 0, 0), (2, 2, 2));
    let ray = Ray::new(&v(-2, 1, 1), &v(1, 0, 0));
    assert!(ray.intersect(&b));
}

#[test]
fn slab_test_rejects_box_behind_origin() {
    let b = bx((0, 0, 0), (2, 2, 2));
    let ray = Ray::new(&v(4, 1, 1), &v(1, 0, 0));
    assert!(!ray.intersect(&b));
}

#[test]
fn slab_test_negative_direction() {
    let b = bx((0, 0, 0), (2, 2, 2));
    let ray = Ray::new(&v(4, 1, 1), &v(-1, 0, 0));
    assert!(ray.intersect(&b));
    let ray_away = Ray::new(&v(-2, 1, 1), &v(-1, 0, 0));
    assert!(!ray_away.intersect(&b));
}

#[test]
fn slab_test_diagonal_ray() {
    let b = bx((2, 2, 2), (4, 4, 4));
    let hit = Ray::new(&v(0, 0, 0), &v(1, 1, 1));
    assert!(hit.intersect(&b));
    let miss = Ray::new(&v(0, 0, 0), &v(1, 1, 5));
    assert!(!miss.intersect(&b));
}

#[test]
fn slab_test_parallel_axis_inside_and_outside() {
    let b = bx((0, 0, 0), (2, 2, 2));
    // The direction has a zero component on two axes; the origin lies
    // within the box's extent there, so only the first axis matters.
    let inside = Ray::new(&v(-2, 1, 1), &v(1, 0, 0));
    assert!(inside.intersect(&b));
    let outside = Ray::new(&v(-2, 3, 1), &v(1, 0, 0));
    assert!(!outside.intersect(&b));
}

#[test]
fn slab_test_touching_face_counts_as_hit() {
    let b = bx((0, 0, 0), (2, 2, 2));
    let grazing = Ray::new(&v(-2, 2, 2), &v(1, 0, 0));
    assert!(grazing.intersect(&b));
}

#[test]
fn slab_test_zero_direction_reduces_to_containment() {
    let b = bx((0, 0, 0), (2, 2, 2));
    let inside = Ray::new(&v(1, 1, 1), &v(0, 0, 0));
    assert!(inside.intersect(&b));
    let outside = Ray::new(&v(3, 1, 1), &v(0, 0, 0));
    assert!(!outside.intersect(&b));
}

#[test]
fn ray_records_direction_signs() {
    let ray = Ray::new(&v(0, 0, 0), &v(-3, 0, 5));
    assert!(ray.sign.get(Dimension::X));
    assert!(!ray.sign.get(Dimension::Y));
    assert!(!ray.sign.get(Dimension::Z));
}
