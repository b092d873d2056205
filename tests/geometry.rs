use lod_terrain::grid::{chunk_to_global_position, chunks_for_radius};
use lod_terrain::mesh::{generate_indices, sample_grid, GRID_SIDE};
use lod_terrain::policy::{effective_distance_at, isqrt, within_refinement_distance, LODSettings};
use lod_terrain::region::{subdivide_rect, Point, Region};

fn settings(max: u32, layer_penalty: u32, min: u32) -> LODSettings {
    LODSettings { max, layer_penalty, min }
}

#[test]
fn region_new_orders_corners() {
    let r = Region::new(10, -5, -3, 7);
    assert_eq!(r.min, Point::new(-3, -5));
    assert_eq!(r.max, Point::new(10, 7));
}

#[test]
fn region_contains_is_closed() {
    let r = Region::new(0, 0, 10, 10);
    assert!(r.contains(Point::new(0, 0)));
    assert!(r.contains(Point::new(10, 10)));
    assert!(r.contains(Point::new(5, 7)));
    assert!(!r.contains(Point::new(11, 5)));
    assert!(!r.contains(Point::new(5, -1)));
}

#[test]
fn subdivide_rect_quarters_square() {
    let (a, b, c, d) = subdivide_rect(Region::new(0, 0, 1000, 1000));
    assert_eq!(a, Region::new(0, 0, 500, 500));
    assert_eq!(b, Region::new(500, 0, 1000, 500));
    assert_eq!(c, Region::new(0, 500, 500, 1000));
    assert_eq!(d, Region::new(500, 500, 1000, 1000));
}

#[test]
fn subdivide_rect_odd_extent_still_tiles() {
    let (a, b, c, d) = subdivide_rect(Region::new(-3, 2, 4, 9));
    assert_eq!(a, Region::new(-3, 2, 0, 5));
    assert_eq!(b, Region::new(0, 2, 4, 5));
    assert_eq!(c, Region::new(-3, 5, 0, 9));
    assert_eq!(d, Region::new(0, 5, 4, 9));
    let area = |r: Region| (r.max.x - r.min.x) as i64 * (r.max.y - r.min.y) as i64;
    assert_eq!(area(a) + area(b) + area(c) + area(d), 7 * 7);
}

#[test]
fn splittable_needs_two_units() {
    assert!(Region::new(0, 0, 2, 2).is_splittable());
    assert!(!Region::new(0, 0, 1, 5).is_splittable());
    assert!(!Region::new(0, 0, 5, 0).is_splittable());
}

#[test]
fn effective_distance_shrinks_per_layer() {
    let s = settings(2000, 180, 0);
    assert_eq!(effective_distance_at(&s, 0), 2000);
    assert_eq!(effective_distance_at(&s, 3), 2000 - 540);
    assert_eq!(effective_distance_at(&s, 12), 0);
    let floor = settings(2000, 1000, 300);
    assert_eq!(effective_distance_at(&floor, 1), 1000);
    assert_eq!(effective_distance_at(&floor, 2), 300);
    assert_eq!(effective_distance_at(&floor, usize::MAX), 300);
}

#[test]
fn isqrt_exact_values() {
    assert_eq!(isqrt(0), 0);
    assert_eq!(isqrt(1), 1);
    assert_eq!(isqrt(15), 3);
    assert_eq!(isqrt(16), 4);
    assert_eq!(isqrt(17), 4);
    assert_eq!(isqrt(2_000_000), 1414);
    assert_eq!(isqrt(u128::MAX), u64::MAX as u128);
}

#[test]
fn refinement_distance_at_center_and_far() {
    let s = settings(2000, 1000, 0);
    let root = Region::new(0, 0, 1000, 1000);
    assert!(within_refinement_distance(root, 0, Point::new(500, 500), &s));
    assert!(!within_refinement_distance(root, 0, Point::new(50000, 50000), &s));
    // depth 1 quadrant: 125000 / (707.1 * 100) = 1.77 < 1000
    let quad = Region::new(0, 0, 500, 500);
    assert!(within_refinement_distance(quad, 1, Point::new(500, 500), &s));
    // at depth 2 the threshold is 0: nothing is near enough
    assert!(!within_refinement_distance(quad, 2, Point::new(250, 250), &s));
}

#[test]
fn refinement_distance_boundary_is_exact() {
    // region 0..30 x 0..40: diagonal 50, so the squared distance must stay
    // below 50 * 100 * 1 = 5000 for a threshold of 1.
    let s = settings(1, 0, 0);
    let r = Region::new(0, 0, 30, 40);
    // center (15, 20); observer (15 + 50, 20 + 50): squared distance 5000
    assert!(!within_refinement_distance(r, 0, Point::new(65, 70), &s));
    // squared distance 49^2 + 51^2 = 5002
    assert!(!within_refinement_distance(r, 0, Point::new(64, 71), &s));
    // squared distance 49^2 + 50^2 = 4901
    assert!(within_refinement_distance(r, 0, Point::new(64, 70), &s));
}

#[test]
fn refinement_distance_degenerate_region_never_near() {
    let s = settings(2000, 0, 2000);
    let point = Region::new(5, 5, 5, 5);
    assert!(!within_refinement_distance(point, 0, Point::new(5, 5), &s));
    assert!(!within_refinement_distance(point, 0, Point::new(6, 5), &s));
}

#[test]
fn refinement_distance_extreme_coordinates() {
    let s = settings(u32::MAX, 0, 0);
    let r = Region::new(i32::MIN, i32::MIN, i32::MAX, i32::MAX);
    assert!(within_refinement_distance(r, 0, Point::new(i32::MAX, i32::MIN), &s));
    let tiny = settings(1, 0, 0);
    assert!(!within_refinement_distance(Region::new(0, 0, 2, 2), 0, Point::new(i32::MIN, i32::MAX), &tiny));
}

#[test]
fn indices_of_single_cell() {
    assert_eq!(generate_indices(2, 2), vec![0, 1, 2, 1, 3, 2]);
}

#[test]
fn indices_of_rectangular_grid() {
    let idx = generate_indices(2, 3);
    assert_eq!(idx, vec![0, 1, 3, 1, 4, 3, 1, 2, 4, 2, 5, 4]);
}

#[test]
fn indices_of_chunk_grid() {
    let n = GRID_SIDE;
    let idx = generate_indices(n, n);
    assert_eq!(idx.len(), 6 * 5 * 5);
    assert!(idx.iter().all(|&i| i < n * n));
    assert_eq!(&idx[6..12], &[1, 2, 7, 2, 8, 7]);
}

#[test]
fn indices_of_degenerate_grids() {
    assert!(generate_indices(0, 5).is_empty());
    assert!(generate_indices(1, 5).is_empty());
    assert!(generate_indices(5, 1).is_empty());
}

#[test]
fn sample_grid_row_major() {
    assert_eq!(sample_grid(2, 3), vec![(0, 0), (0, 1), (0, 2), (1, 0), (1, 1), (1, 2)]);
    assert!(sample_grid(0, 3).is_empty());
}

#[test]
fn chunk_to_global_position_centers() {
    assert_eq!(chunk_to_global_position(0, 0), (2, 2));
    assert_eq!(chunk_to_global_position(1, -2), (6, -6));
}

#[test]
fn chunks_for_radius_square() {
    let chunks = chunks_for_radius(1, 5, -1);
    assert_eq!(chunks.len(), 9);
    assert_eq!(chunks[0], (0, -2, 2));
    assert_eq!(chunks[1], (0, -1, 1));
    assert_eq!(chunks[4], (1, -1, 0));
    assert_eq!(chunks[8], (2, 0, 2));
}

#[test]
fn chunks_for_radius_zero_and_negative() {
    assert_eq!(chunks_for_radius(0, -4, 3), vec![(-1, 0, 0)]);
    assert!(chunks_for_radius(-1, 0, 0).is_empty());
}
