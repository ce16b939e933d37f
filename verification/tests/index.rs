//! Tests for configuration validation and the index itself: building and
//! ray queries.

use kdtree_ray::aabb::{Bounded, Vector3, AABB};
use kdtree_ray::config::BuilderConfig;
use kdtree_ray::kdtree::KDTree;
use kdtree_ray::ray::Ray;

fn v(x: i64, y: i64, z: i64) -> Vector3 {
    Vector3::new(x, y, z)
}

fn bx(min: (i64, i64, i64), max: (i64, i64, i64)) -> AABB {
    AABB::new(v(min.0, min.1, min.2), v(max.0, max.1, max.2))
}

#[test]
fn config_default_values() {
    let c = BuilderConfig::default();
    assert_eq!(c.cost_traversal(), 15);
    assert_eq!(c.cost_intersection(), 20);
    assert_eq!(c.empty_cut_bonus(), 20);
}

#[test]
fn config_rejects_zero_traversal_cost() {
    assert!(BuilderConfig::try_new(0, 20, 20).is_none());
}

#[test]
fn config_rejects_out_of_range_bonus() {
    // A bonus of one and a half (150 hundredths) lies outside [0, 1].
    assert!(BuilderConfig::try_new(15, 20, 150).is_none());
    assert!(BuilderConfig::try_new(15, 20, -1).is_none());
}

#[test]
fn config_rejects_zero_intersection_cost() {
    assert!(BuilderConfig::try_new(15, 0, 20).is_none());
}

#[test]
fn config_accepts_valid_values() {
    let c = BuilderConfig::try_new(7, 11, 0).expect("valid configuration");
    assert_eq!(c.cost_traversal(), 7);
    assert_eq!(c.cost_intersection(), 11);
    assert_eq!(c.empty_cut_bonus(), 0);
}

#[test]
fn build_rejects_empty_item_list() {
    let shapes: Vec<AABB> = Vec::new();
    assert!(KDTree::try_build(&shapes).is_none());
    let config = BuilderConfig::default();
    assert!(KDTree::try_build_config(&shapes, &config).is_none());
}

#[test]
fn single_box_hit_and_behind() {
    // One box, a ray that enters it head on, and one that starts past it.
    let shapes = vec![bx((0, 0, 0), (2, 2, 2))];
    let tree = KDTree::build(&shapes);
    assert_eq!(tree.intersect(&v(-2, 1, 1), &v(1, 0, 0)), vec![0]);
    assert_eq!(tree.intersect(&v(4, 1, 1), &v(1, 0, 0)), Vec::<usize>::new());
}

#[test]
fn two_disjoint_boxes_along_the_ray() {
    let shapes = vec![bx((0, 0, 0), (2, 2, 2)), bx((20, 0, 0), (22, 2, 2))];
    let tree = KDTree::build(&shapes);
    assert_eq!(tree.intersect(&v(-2, 1, 1), &v(1, 0, 0)), vec![0, 1]);
}

#[test]
fn miss_of_overall_bound_returns_empty() {
    let shapes = vec![bx((0, 0, 0), (2, 2, 2)), bx((20, 0, 0), (22, 2, 2))];
    let tree = KDTree::build(&shapes);
    assert_eq!(tree.intersect(&v(50, 50, 50), &v(1, 0, 0)), Vec::<usize>::new());
    assert_eq!(tree.intersect(&v(-2, 10, 1), &v(1, 0, 0)), Vec::<usize>::new());
}

#[test]
fn straddling_box_reported_once() {
    // A long box overlapping a row of small ones straddles every split
    // plane; it must still appear exactly once.
    let mut shapes = Vec::new();
    for i in 0..8i64 {
        shapes.push(bx((2 * i, 0, 0), (2 * i + 2, 2, 2)));
    }
    shapes.push(bx((0, 0, 0), (16, 2, 2)));
    let tree = KDTree::build(&shapes);
    let result = tree.intersect(&v(-2, 1, 1), &v(1, 0, 0));
    assert_eq!(result, vec![0, 1, 2, 3, 4, 5, 6, 7, 8]);
}

#[test]
fn results_are_sorted_and_unique() {
    let mut shapes = Vec::new();
    for i in 0..6i64 {
        shapes.push(bx((0, 2 * i, 0), (12, 2 * i + 2, 2)));
    }
    shapes.push(bx((0, 0, 0), (12, 12, 2)));
    let tree = KDTree::build(&shapes);
    let result = tree.intersect(&v(1, -2, 1), &v(0, 1, 0));
    for w in result.windows(2) {
        assert!(w[0] < w[1]);
    }
    assert_eq!(result.len(), 7);
}

#[test]
fn no_candidate_is_missed() {
    // Against a mixed scene, every item whose own box the slab test
    // accepts must appear in the query result.
    let shapes = vec![
        bx((0, 0, 0), (2, 2, 2)),
        bx((4, 0, 0), (6, 2, 2)),
        bx((0, 4, 0), (2, 6, 2)),
        bx((0, 0, 4), (2, 2, 6)),
        bx((-6, -6, -6), (6, 6, 6)),
        bx((3, 3, 3), (5, 5, 5)),
    ];
    let tree = KDTree::build(&shapes);
    let rays = [
        (v(-10, 1, 1), v(1, 0, 0)),
        (v(1, -10, 1), v(0, 1, 0)),
        (v(1, 1, -10), v(0, 0, 1)),
        (v(-10, -10, -10), v(1, 1, 1)),
        (v(10, 10, 10), v(-1, -1, -1)),
        (v(5, 1, 1), v(-1, 0, 0)),
    ];
    for (origin, direction) in rays.iter() {
        let result = tree.intersect(origin, direction);
        let ray = Ray::new(origin, direction);
        for (index, shape) in shapes.iter().enumerate() {
            if ray.intersect(shape) {
                assert!(result.contains(&index));
            }
        }
        for index in result.iter() {
            assert!(*index < shapes.len());
        }
    }
}

#[test]
fn flat_boxes_are_still_found() {
    // Zero-thickness boxes produce degenerate split candidates at equal
    // positions; they degrade into leaves and are never lost.
    let shapes = vec![
        bx((0, 0, 0), (2, 0, 2)),
        bx((0, 2, 0), (2, 2, 2)),
        bx((0, 0, 0), (2, 2, 2)),
    ];
    let tree = KDTree::build(&shapes);
    let result = tree.intersect(&v(1, -2, 1), &v(0, 1, 0));
    assert_eq!(result, vec![0, 1, 2]);
}

#[test]
fn identical_queries_return_identical_sequences() {
    let shapes = vec![
        bx((0, 0, 0), (2, 2, 2)),
        bx((1, 0, 0), (4, 2, 2)),
        bx((8, 0, 0), (10, 2, 2)),
    ];
    let tree = KDTree::build(&shapes);
    let a = tree.intersect(&v(-2, 1, 1), &v(1, 0, 0));
    let b = tree.intersect(&v(-2, 1, 1), &v(1, 0, 0));
    assert_eq!(a, b);
}

#[test]
fn custom_configuration_builds_equivalent_index() {
    let shapes = vec![bx((0, 0, 0), (2, 2, 2)), bx((6, 0, 0), (8, 2, 2))];
    let config = BuilderConfig::new(1, 100, 0);
    let tree = KDTree::build_config(&shapes, &config);
    assert_eq!(tree.intersect(&v(-2, 1, 1), &v(1, 0, 0)), vec![0, 1]);
    assert_eq!(tree.intersect(&v(7, 1, -5), &v(0, 0, 1)), vec![1]);
}

#[test]
fn index_exposes_overall_bound() {
    let shapes = vec![bx((0, 0, 0), (2, 2, 2)), bx((20, -4, 0), (22, 2, 2))];
    let tree = KDTree::build(&shapes);
    assert_eq!(tree.bound(), bx((0, -4, 0), (22, 2, 2)));
}

#[test]
fn index_of_indices_composes() {
    let left = KDTree::build(&vec![bx((0, 0, 0), (2, 2, 2))]);
    let right = KDTree::build(&vec![bx((20, 0, 0), (22, 2, 2))]);
    assert_eq!(left.bound(), bx((0, 0, 0), (2, 2, 2)));
    let top = KDTree::build(&vec![left, right]);
    assert_eq!(top.intersect(&v(-2, 1, 1), &v(1, 0, 0)), vec![0, 1]);
    assert_eq!(top.intersect(&v(21, 1, -5), &v(0, 0, 1)), vec![1]);
}
