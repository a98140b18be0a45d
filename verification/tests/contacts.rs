use terrain_collision::float::F32;
use terrain_collision::outline::build_collision_outline;
use terrain_collision::outline::CollisionOutline;
use terrain_collision::outline::Rotation;
use terrain_collision::sat::aabb_vertices;
use terrain_collision::sat::centroid;
use terrain_collision::sat::circle_angles;
use terrain_collision::sat::circle_overlaps_outline;
use terrain_collision::sat::circle_polygon;
use terrain_collision::sat::project_polygon;
use terrain_collision::sat::sat_aabb_vs_outline;
use terrain_collision::sat::sat_convex_vs_convex;
use terrain_collision::sat::sat_outline_vs_outline;
use terrain_collision::sat::Direction;
use terrain_collision::sat::SatResult;
use terrain_collision::sat::CIRCLE_SEGMENTS;
use terrain_collision::vec2::Vec2;

fn f(x: f32) -> F32 {
    F32::from_bits(x.to_bits())
}

fn n(x: F32) -> f32 {
    f32::from_bits(x.to_bits())
}

fn v(x: f32, y: f32) -> Vec2 {
    Vec2::new(f(x), f(y))
}

fn t(v: Vec2) -> (f32, f32) {
    (n(v.x), n(v.y))
}

fn straight() -> Rotation {
    Rotation { angle: f(0.0), sin: f(0.0), cos: f(1.0) }
}

fn shape(w: i32, h: i32, solid: fn(i32, i32) -> bool) -> Vec<u8> {
    let mut bytes = Vec::new();
    for y in 0..h {
        for x in 0..w {
            bytes.extend_from_slice(&[0, 0, 0, if solid(x, y) { 255 } else { 0 }]);
        }
    }
    bytes
}

fn diamond() -> CollisionOutline {
    let pixels = shape(9, 9, |x, y| (x - 4).abs() + (y - 4).abs() <= 4);
    build_collision_outline(&pixels, 9, 9, (f(9.0), f(9.0)), 0, f(1.0)).unwrap()
}

fn angle() -> CollisionOutline {
    let pixels = shape(12, 12, |x, y| x < 4 || y >= 8);
    build_collision_outline(&pixels, 12, 12, (f(24.0), f(12.0)), 128, f(1.0)).unwrap()
}

fn rectangle(x: f32, y: f32, w: f32, h: f32) -> Vec<Vec2> {
    aabb_vertices(v(x, y), (f(w), f(h)))
}

fn result(r: Option<SatResult>) -> Option<((f32, f32), f32)> {
    r.map(|r| (t(r.normal), n(r.depth)))
}

#[test]
fn boxes_have_four_corners() {
    let corners: Vec<(f32, f32)> = rectangle(1.0, 2.0, 3.0, 4.0).into_iter().map(t).collect();
    assert_eq!(corners, vec![(1.0, 2.0), (4.0, 2.0), (4.0, 6.0), (1.0, 6.0)]);
}

#[test]
fn projections_are_ranges() {
    let corners = rectangle(1.0, 2.0, 3.0, 4.0);
    let (least, most) = project_polygon(&corners, v(0.0, -1.0));
    assert_eq!((n(least), n(most)), (-6.0, -2.0));
    let (least, most) = project_polygon(&[], v(0.0, -1.0));
    assert_eq!((n(least), n(most)), (f32::MAX, f32::MIN));
}

#[test]
fn centroids_are_means_of_corners() {
    assert_eq!(t(centroid(&rectangle(1.0, 2.0, 3.0, 4.0))), (2.5, 4.0));
}

#[test]
fn overlapping_polygons_come_apart_the_shortest_way() {
    let a = rectangle(0.0, 0.0, 2.0, 2.0);
    let b = rectangle(1.0, 0.5, 3.0, 2.5);
    assert_eq!(result(sat_convex_vs_convex(&a, &b)), Some(((-1.0, 0.0), 1.0)));
    assert_eq!(result(sat_convex_vs_convex(&b, &a)), Some(((1.0, 0.0), 1.0)));
}

#[test]
fn touching_polygons_do_not_overlap() {
    let a = rectangle(0.0, 0.0, 2.0, 2.0);
    assert!(sat_convex_vs_convex(&a, &rectangle(2.0, 0.0, 2.0, 2.0)).is_none());
    assert!(sat_convex_vs_convex(&rectangle(2.0, 0.0, 2.0, 2.0), &a).is_none());
    assert!(sat_convex_vs_convex(&a, &rectangle(0.0, 5.0, 2.0, 2.0)).is_none());
}

#[test]
fn polygons_are_separated_along_edges_of_either() {
    // the box around the triangle overlaps the square, and its long edge does not
    let triangle = vec![v(0.0, 0.0), v(4.0, 0.0), v(0.0, 4.0)];
    let square = rectangle(2.5, 2.5, 1.0, 1.0);
    assert!(sat_convex_vs_convex(&triangle, &square).is_none());
    assert!(sat_convex_vs_convex(&square, &triangle).is_none());
    assert!(sat_convex_vs_convex(&triangle, &rectangle(1.5, 1.5, 1.0, 1.0)).is_some());
}

#[test]
fn pushes_have_some_clearance() {
    let r = SatResult { normal: v(0.0, -1.0), depth: f(2.5) };
    assert_eq!(r.push().y.to_bits(), 0xc020_a3d7);
    assert_eq!(n(r.push().x), 0.0);
}

#[test]
fn a_box_leaves_a_diamond_upwards() {
    let r = sat_aabb_vs_outline(v(12.0, 17.0), (f(4.0), f(6.0)), v(10.0, 20.0), &diamond(), straight());
    assert_eq!(result(r), Some(((0.0, -1.0), 2.5)));
    let none = sat_aabb_vs_outline(v(0.0, 0.0), (f(4.0), f(6.0)), v(10.0, 20.0), &diamond(), straight());
    assert!(none.is_none());
}

#[test]
fn a_box_leaves_several_polygons_by_the_least_deep() {
    let r = sat_aabb_vs_outline(v(2.0, 6.0), (f(5.0), f(4.0)), v(0.0, 0.0), &angle(), straight());
    let r = r.unwrap();
    assert_eq!(
        (r.normal.x.to_bits(), r.normal.y.to_bits(), r.depth.to_bits()),
        (0xbf35_04f3, 0x3f35_04f3, 0x3eb5_0500)
    );
}

#[test]
fn outlines_are_pushed_by_every_pair_of_polygons() {
    let push = sat_outline_vs_outline(
        &diamond(),
        v(4.0, 2.0),
        straight(),
        &angle(),
        v(0.0, 0.0),
        straight(),
    );
    let push = push.unwrap();
    assert_eq!((push.x.to_bits(), push.y.to_bits()), (0x40f2_392e, 0xc042_0372));
    let none = sat_outline_vs_outline(
        &diamond(),
        v(100.0, 2.0),
        straight(),
        &angle(),
        v(0.0, 0.0),
        straight(),
    );
    assert!(none.is_none());
}

fn directions() -> Vec<Direction> {
    circle_angles(CIRCLE_SEGMENTS)
        .into_iter()
        .map(|a| Direction { cos: f(n(a).cos()), sin: f(n(a).sin()) })
        .collect()
}

#[test]
fn angles_go_round_the_circle() {
    let angles: Vec<u32> = circle_angles(20).into_iter().map(|a| a.to_bits()).collect();
    assert_eq!(angles.len(), 20);
    assert_eq!(
        angles[..6],
        [0x0, 0x3ea0_d97c, 0x3f20_d97c, 0x3f71_463b, 0x3fa0_d97c, 0x3fc9_0fdb]
    );
    let few: Vec<u32> = circle_angles(3).into_iter().map(|a| a.to_bits()).collect();
    assert_eq!(
        few,
        vec![
            0x0, 0x3f49_0fdb, 0x3fc9_0fdb, 0x4016_cbe4, 0x4049_0fdb, 0x407b_53d2, 0x4096_cbe4,
            0x40af_ede0,
        ]
    );
}

#[test]
fn circles_are_polygons() {
    let right = Direction { cos: f(1.0), sin: f(0.0) };
    let down = Direction { cos: f(0.0), sin: f(1.0) };
    let corners = circle_polygon(v(1.0, 2.0), f(3.0), &[right, down]);
    let plain: Vec<(f32, f32)> = corners.into_iter().map(t).collect();
    assert_eq!(plain, vec![(4.0, 2.0), (1.0, 5.0)]);
}

#[test]
fn circles_overlap_outlines() {
    let at = |x: f32, r: f32| {
        circle_overlaps_outline(
            v(x, 4.5),
            f(r),
            &directions(),
            &diamond(),
            v(0.0, 0.0),
            straight(),
        )
    };
    assert!(at(4.5, 1.0));
    assert!(at(9.5, 2.0));
    assert!(!at(9.5, 0.5));
    assert!(!at(4.5, 0.0));
    assert!(!at(4.5, -1.0));
}

#[test]
fn the_depth_is_least_and_the_normal_points_away() {
    let shapes = [
        rectangle(0.0, 0.0, 3.0, 2.0),
        rectangle(1.5, 1.0, 3.0, 2.0),
        vec![v(0.5, 0.5), v(4.0, 1.0), v(1.0, 4.0)],
        vec![v(2.0, -1.0), v(5.0, 1.5), v(2.5, 3.0), v(0.0, 1.0)],
    ];
    for a in &shapes {
        for b in &shapes {
            let forth = sat_convex_vs_convex(a, b);
            let back = sat_convex_vs_convex(b, a);
            assert_eq!(forth.is_some(), back.is_some());
            if let Some(c) = forth {
                assert_eq!(n(c.depth), n(back.unwrap().depth));
                assert!(n(c.depth) > 0.0);
                let way = centroid(a).sub(centroid(b)).dot(c.normal);
                assert!(n(way) >= 0.0);
                for poly in [a, b] {
                    for i in 0..poly.len() {
                        let axis = poly[(i + 1) % poly.len()].sub(poly[i]).perp().normalize();
                        let (a_min, a_max) = project_polygon(a, axis);
                        let (b_min, b_max) = project_polygon(b, axis);
                        let overlap = (n(a_max) - n(b_min)).min(n(b_max) - n(a_min));
                        assert!(!(overlap < n(c.depth)));
                    }
                }
            }
        }
    }
}
