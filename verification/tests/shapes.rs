use terrain_collision::contour::trace_contour;
use terrain_collision::float::F32;
use terrain_collision::hull::convex_hull_points;
use terrain_collision::polygon::convex_decompose;
use terrain_collision::polygon::convex_hull_float;
use terrain_collision::polygon::cross2d;
use terrain_collision::polygon::is_convex;
use terrain_collision::polygon::is_diagonal_valid;
use terrain_collision::polygon::is_reflex;
use terrain_collision::polygon::point_in_polygon;
use terrain_collision::polygon::polygon_area_abs;
use terrain_collision::polygon::split_polygon;
use terrain_collision::simplify::contour_has_large_jumps;
use terrain_collision::simplify::dedup_close_vertices;
use terrain_collision::simplify::is_divisible;
use terrain_collision::simplify::is_divisible_closed;
use terrain_collision::simplify::pixels_to_local_space;
use terrain_collision::simplify::rdp_simplify;
use terrain_collision::simplify::rdp_simplify_closed;
use terrain_collision::vec2::Vec2;

fn f(x: f32) -> F32 {
    F32::from_bits(x.to_bits())
}

fn n(x: F32) -> f32 {
    f32::from_bits(x.to_bits())
}

fn poly(points: &[(f32, f32)]) -> Vec<Vec2> {
    points.iter().map(|p| Vec2::new(f(p.0), f(p.1))).collect()
}

fn plain(points: &[Vec2]) -> Vec<(f32, f32)> {
    points.iter().map(|p| (n(p.x), n(p.y))).collect()
}

#[test]
fn hull_has_the_outer_corners() {
    let mut points = Vec::new();
    for x in 0..5 {
        for y in 0..4 {
            points.push((x, y));
        }
    }
    assert_eq!(convex_hull_points(&points), vec![(0, 0), (4, 0), (4, 3), (0, 3)]);
}

#[test]
fn hull_turns_left_at_every_corner() {
    let mut points = Vec::new();
    for i in 0..60i32 {
        points.push(((i * 37) % 23 - 11, (i * 53) % 29 - 14));
    }
    let hull = convex_hull_points(&points);
    let count = hull.len();
    assert!(count >= 3);
    assert_eq!(Some(&hull[0]), points.iter().min());
    for i in 0..count {
        let (a, b, c) = (hull[i], hull[(i + 1) % count], hull[(i + 2) % count]);
        assert!((b.0 - a.0) * (c.1 - a.1) - (b.1 - a.1) * (c.0 - a.0) > 0);
        assert!(!hull[i + 1..].contains(&hull[i]));
        for p in &points {
            assert!((b.0 - a.0) * (p.1 - a.1) - (b.1 - a.1) * (p.0 - a.0) >= 0);
        }
    }
}

#[test]
fn hull_does_not_depend_on_order_or_repetition() {
    let points = [(3, 1), (0, 0), (1, 5), (3, 1), (2, 2), (0, 0)];
    assert_eq!(convex_hull_points(&points), vec![(0, 0), (3, 1), (1, 5)]);
}

#[test]
fn hull_of_few_points_is_sorted() {
    assert_eq!(convex_hull_points(&[(2, 1), (0, 3), (2, 1)]), vec![(0, 3), (2, 1)]);
    assert_eq!(convex_hull_points(&[]), vec![]);
}

#[test]
fn hull_of_a_line_has_its_ends() {
    assert_eq!(convex_hull_points(&[(0, 0), (1, 1), (2, 2)]), vec![(0, 0), (2, 2)]);
}

#[test]
fn trace_follows_a_diamond() {
    let border = [(1, 0), (0, 1), (2, 1), (1, 2)];
    assert_eq!(trace_contour(&border), vec![(1, 0), (0, 1), (1, 2), (2, 1)]);
}

#[test]
fn trace_of_nothing_is_empty() {
    assert_eq!(trace_contour(&[]), vec![]);
}

#[test]
fn trace_stops_where_no_neighbour_is_left() {
    assert_eq!(trace_contour(&[(5, 5)]), vec![(5, 5)]);
    assert_eq!(trace_contour(&[(0, 0), (1, 0), (2, 0)]), vec![(0, 0), (1, 0), (2, 0)]);
}

#[test]
fn trace_goes_on_for_at_most_nine_more_points() {
    let mut border = Vec::new();
    for i in 0..8 {
        border.push((i, 0));
        border.push((i, 7));
    }
    for i in 1..7 {
        border.push((0, i));
        border.push((7, i));
    }
    assert_eq!(trace_contour(&border).len(), border.len() + 9);
}

#[test]
fn jumps_are_long_compared_with_the_other_steps() {
    let mut contour: Vec<(i32, i32)> = (0..20).map(|i| (i, 0)).collect();
    assert!(!contour_has_large_jumps(&contour));
    contour.push((29, 0));
    assert!(contour_has_large_jumps(&contour));
    contour.pop();
    contour.push((25, 0));
    assert!(!contour_has_large_jumps(&contour));
    assert!(!contour_has_large_jumps(&[(0, 0), (100, 0), (200, 0)]));
    assert!(!contour_has_large_jumps(&[(0, 0), (100, 0), (200, 0), (300, 0)]));
}

#[test]
fn simplification_leaves_out_near_points() {
    let points = [(0, 0), (5, 1), (10, 0), (10, 10)];
    assert_eq!(rdp_simplify(&points, f(2.0)), vec![(0, 0), (10, 0), (10, 10)]);
    assert_eq!(rdp_simplify(&points, f(0.5)), points.to_vec());
    assert_eq!(rdp_simplify(&points, f(20.0)), vec![(0, 0), (10, 10)]);
    assert_eq!(rdp_simplify(&points[..2], f(20.0)), points[..2].to_vec());
}

#[test]
fn simplification_of_a_loop_measures_from_its_start() {
    let points = [(0, 0), (4, 0), (4, 3), (0, 0)];
    assert_eq!(rdp_simplify(&points, f(1.0)), vec![(0, 0), (4, 0), (4, 3), (0, 0)]);
}

#[test]
fn simplification_of_a_closed_contour_has_two_halves() {
    let square = [(0, 0), (2, 0), (4, 0), (4, 2), (4, 4), (2, 4), (0, 4), (0, 2)];
    assert_eq!(rdp_simplify_closed(&square, f(0.5)), vec![(0, 0), (4, 0), (4, 4), (0, 4)]);
    assert_eq!(rdp_simplify_closed(&square[..3], f(0.5)), square[..3].to_vec());
    assert_eq!(rdp_simplify_closed(&[(1, 1); 5], f(0.5)), vec![(1, 1)]);
}

#[test]
fn negative_tolerance_may_never_end() {
    assert!(!is_divisible(&[(0, 0), (1, 0), (2, 0)], f(-1.0)));
    assert!(is_divisible(&[(0, 0), (1, 1), (2, 0)], f(-1.0)));
    assert!(is_divisible(&[(0, 0), (1, 0), (2, 0)], f(0.0)));
    assert!(is_divisible(&[(0, 0), (1, 0), (2, 0)], f(f32::NAN)));
    let square = [(0, 0), (4, 0), (4, 4), (0, 4)];
    assert!(is_divisible_closed(&square, f(-1.0)));
    assert_eq!(rdp_simplify_closed(&square, f(-1.0)), square.to_vec());
    let flat = [(0, 0), (2, 0), (4, 0), (4, 4), (0, 4)];
    assert!(!is_divisible_closed(&flat, f(-1.0)));
}

#[test]
fn close_vertices_are_merged() {
    let points = [(0, 0), (1, 0), (1, 1), (2, 2), (5, 5), (6, 5)];
    assert_eq!(dedup_close_vertices(&points, f(1.5)), vec![(0, 0), (2, 2), (5, 5)]);
    assert_eq!(dedup_close_vertices(&points, f(1.0)), points.to_vec());
    assert_eq!(dedup_close_vertices(&[], f(1.5)), vec![]);
}

#[test]
fn local_space_has_its_origin_in_the_centre() {
    let local = pixels_to_local_space(&[(0, 0), (3, 1)], 4, 2, (f(8.0), f(2.0)));
    assert_eq!(plain(&local), vec![(-3.0, -0.5), (3.0, 0.5)]);
    let empty = pixels_to_local_space(&[(0, 0)], 0, 0, (f(8.0), f(2.0)));
    assert_eq!(plain(&empty), vec![(0.0, 0.0)]);
}

#[test]
fn float_hull_has_the_outer_corners() {
    let points = poly(&[(0.0, 0.0), (2.0, 0.0), (1.0, 0.5), (2.0, 2.0), (0.0, 2.0), (1.0, 0.0)]);
    assert_eq!(
        plain(&convex_hull_float(&points)),
        vec![(0.0, 0.0), (2.0, 0.0), (2.0, 2.0), (0.0, 2.0)]
    );
}

#[test]
fn float_hull_merges_points_that_are_nearly_the_same() {
    let points = poly(&[(0.0, 0.0), (0.00005, 0.00005), (1.0, 0.0)]);
    assert_eq!(plain(&convex_hull_float(&points)), vec![(0.0, 0.0), (1.0, 0.0)]);
    let two = poly(&[(3.0, 0.0), (1.0, 0.0)]);
    assert_eq!(plain(&convex_hull_float(&two)), vec![(3.0, 0.0), (1.0, 0.0)]);
}

#[test]
fn areas_do_not_depend_on_the_sense() {
    let square = poly(&[(0.0, 0.0), (3.0, 0.0), (3.0, 2.0), (0.0, 2.0)]);
    let reverse: Vec<Vec2> = square.iter().rev().cloned().collect();
    assert_eq!(n(polygon_area_abs(&square)), 6.0);
    assert_eq!(n(polygon_area_abs(&reverse)), 6.0);
    assert_eq!(n(polygon_area_abs(&square[..2])), 0.0);
}

fn arrow() -> Vec<Vec2> {
    poly(&[(0.0, 0.0), (4.0, 0.0), (4.0, 4.0), (3.0, 1.0)])
}

#[test]
fn convexity_is_a_common_turn() {
    let square = poly(&[(0.0, 0.0), (3.0, 0.0), (3.0, 2.0), (0.0, 2.0)]);
    assert!(is_convex(&square));
    let reverse: Vec<Vec2> = square.iter().rev().cloned().collect();
    assert!(is_convex(&reverse));
    assert!(!is_convex(&arrow()));
    assert!(is_convex(&arrow()[..2]));
    assert_eq!(n(cross2d(square[1], square[2])), 6.0);
}

#[test]
fn reflex_corners_turn_right() {
    let arrow = arrow();
    let reflex: Vec<bool> = (0..4).map(|i| is_reflex(&arrow, i)).collect();
    assert_eq!(reflex, vec![false, false, false, true]);
}

#[test]
fn points_are_inside_or_outside() {
    let arrow = arrow();
    assert!(point_in_polygon(&Vec2::new(f(3.0), f(0.5)), &arrow));
    assert!(!point_in_polygon(&Vec2::new(f(1.0), f(2.0)), &arrow));
    assert!(!point_in_polygon(&Vec2::new(f(5.0), f(1.0)), &arrow));
    assert!(is_diagonal_valid(&arrow, 3, 1));
    assert!(!is_diagonal_valid(&arrow, 0, 2));
}

#[test]
fn splits_share_their_ends() {
    let square = poly(&[(0.0, 0.0), (3.0, 0.0), (3.0, 2.0), (0.0, 2.0)]);
    let (a, b) = split_polygon(&square, 2, 0);
    assert_eq!(plain(&a), vec![(0.0, 0.0), (3.0, 0.0), (3.0, 2.0)]);
    assert_eq!(plain(&b), vec![(3.0, 2.0), (0.0, 2.0), (0.0, 0.0)]);
}

#[test]
fn concave_polygons_are_cut() {
    let pieces = convex_decompose(&arrow());
    let plains: Vec<Vec<(f32, f32)>> = pieces.iter().map(|p| plain(p)).collect();
    assert_eq!(
        plains,
        vec![
            vec![(4.0, 0.0), (4.0, 4.0), (3.0, 1.0)],
            vec![(3.0, 1.0), (0.0, 0.0), (4.0, 0.0)],
        ]
    );
    assert!(pieces.iter().all(|p| is_convex(p)));
}

#[test]
fn convex_polygons_are_not_cut() {
    let square = poly(&[(0.0, 0.0), (3.0, 0.0), (3.0, 2.0), (0.0, 2.0)]);
    let pieces = convex_decompose(&square);
    assert_eq!(pieces.len(), 1);
    assert_eq!(plain(&pieces[0]), plain(&square));
    assert!(convex_decompose(&square[..2]).is_empty());
}
