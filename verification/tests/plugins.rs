use image::RgbaImage;
use std::sync::Arc;
use terrain_collision::cache_key::outline_cache_key;
use terrain_collision::float::F32;
use terrain_collision::image_source::SharedImage;
use terrain_collision::names::NameMap;
use terrain_collision::outline::Rotation;
use terrain_collision::plugin::TerrainCollisionCall;
use terrain_collision::plugin::TerrainCollisionPlugin;
use terrain_collision::sat::circle_angles;
use terrain_collision::sat::Direction;
use terrain_collision::sat::CIRCLE_SEGMENTS;
use terrain_collision::scene::GameObject;
use terrain_collision::scene::Scene;
use terrain_collision::vec2::Vec2;

fn f(x: f32) -> F32 {
    F32::from_bits(x.to_bits())
}

fn n(x: F32) -> f32 {
    f32::from_bits(x.to_bits())
}

fn straight() -> Rotation {
    Rotation { angle: f(0.0), sin: f(0.0), cos: f(1.0) }
}

fn s(name: &str) -> String {
    String::from(name)
}

fn shape(w: i32, h: i32, solid: fn(i32, i32) -> bool) -> Vec<u8> {
    let mut bytes = Vec::new();
    for y in 0..h {
        for x in 0..w {
            bytes.extend_from_slice(&[0, 0, 0, if solid(x, y) { 255 } else { 0 }]);
        }
    }
    bytes
}

fn diamond() -> Vec<u8> {
    shape(9, 9, |x, y| (x - 4).abs() + (y - 4).abs() <= 4)
}

fn small_diamond() -> Vec<u8> {
    shape(9, 9, |x, y| (x - 4).abs() + (y - 4).abs() <= 3)
}

const NINE: (u32, u32) = (9, 9);

fn size() -> (F32, F32) {
    (f(9.0), f(9.0))
}

fn key(pixels: &[u8]) -> u64 {
    outline_cache_key(pixels, 9, 9, size(), 0, f(1.0))
}

fn register(plugin: &mut TerrainCollisionPlugin, name: &str, pixels: &[u8]) -> bool {
    plugin.register_dynamic_outline(s(name), pixels, NINE, size(), 0, f(1.0))
}

fn hulls(plugin: &TerrainCollisionPlugin, name: &str) -> Option<Vec<Vec<(f32, f32)>>> {
    plugin.dynamic_outline_world_hulls(name, (f(0.0), f(0.0)), straight()).map(|hulls| {
        hulls.into_iter().map(|h| h.into_iter().map(|p| (n(p.0), n(p.1))).collect()).collect()
    })
}

fn diamond_hulls() -> Vec<Vec<(f32, f32)>> {
    vec![vec![(0.5, 4.5), (4.5, 0.5), (8.5, 4.5), (4.5, 8.5)]]
}

fn picture(pixels: Vec<u8>, w: u32, h: u32) -> SharedImage {
    SharedImage { image: Arc::new(RgbaImage::from_raw(w, h, pixels).unwrap()) }
}

#[test]
fn a_new_plugin_is_empty() {
    let plugin = TerrainCollisionPlugin::new();
    assert_eq!(plugin.name(), "terrain_collision");
    assert_eq!(plugin.restitution.to_bits(), 0);
    assert_eq!(plugin.active_dynamic_outline_key("player"), None);
    assert_eq!(hulls(&plugin, "player"), None);
    assert!(plugin.obstacle_names().is_empty());
    assert!(TerrainCollisionPlugin::default().obstacle_names().is_empty());
}

#[test]
fn terrain_is_registered_once_per_name() {
    let mut plugin = TerrainCollisionPlugin::new();
    let pixels = diamond();
    assert!(plugin.register_terrain(s("a"), &pixels, NINE, size(), 0, f(1.0)));
    assert!(plugin.register_terrain(s("b"), &pixels, NINE, size(), 0, f(1.0)));
    assert!(plugin.register_terrain(s("a"), &pixels, NINE, size(), 0, f(1.0)));
    assert_eq!(plugin.obstacle_names(), vec!["a", "b"]);
}

#[test]
fn invisible_sprites_are_refused() {
    let mut plugin = TerrainCollisionPlugin::new();
    let nothing = shape(9, 9, |_, _| false);
    assert!(!plugin.register_terrain(s("a"), &nothing, NINE, size(), 0, f(1.0)));
    assert!(!register(&mut plugin, "a", &nothing));
    assert!(!plugin.register_group_member(s("g"), s("a"), &nothing, NINE, size(), 0, f(1.0)));
    assert!(!plugin.ensure_dynamic_outline_for_image(s("a"), &nothing, NINE, size(), 0, f(1.0)));
    assert!(plugin.obstacle_names().is_empty());
    assert_eq!(plugin.active_dynamic_outline_key("a"), None);
    assert!(TerrainCollisionPlugin::build_shared_outline(&nothing, NINE, size(), 0, f(1.0)).is_none());
}

#[test]
fn shared_outlines_are_terrain() {
    let mut plugin = TerrainCollisionPlugin::new();
    let outline =
        TerrainCollisionPlugin::build_shared_outline(&diamond(), NINE, size(), 0, f(1.0)).unwrap();
    plugin.register_shared_terrain(s("a"), outline.clone());
    plugin.register_shared_terrain(s("b"), outline);
    assert_eq!(plugin.obstacle_names(), vec!["a", "b"]);
}

#[test]
fn dynamic_outlines_have_keys() {
    let mut plugin = TerrainCollisionPlugin::new();
    assert!(register(&mut plugin, "player", &diamond()));
    assert_eq!(plugin.active_dynamic_outline_key("player"), Some(key(&diamond())));
    assert_eq!(plugin.active_dynamic_outline_key("enemy"), None);
    assert_eq!(hulls(&plugin, "player"), Some(diamond_hulls()));
    assert!(register(&mut plugin, "player", &small_diamond()));
    assert_eq!(plugin.active_dynamic_outline_key("player"), Some(key(&small_diamond())));
    assert_ne!(hulls(&plugin, "player"), Some(diamond_hulls()));
}

#[test]
fn a_refused_outline_leaves_the_old_one() {
    let mut plugin = TerrainCollisionPlugin::new();
    assert!(register(&mut plugin, "player", &diamond()));
    assert!(!register(&mut plugin, "player", &shape(9, 9, |_, _| false)));
    assert_eq!(plugin.active_dynamic_outline_key("player"), Some(key(&diamond())));
    assert_eq!(hulls(&plugin, "player"), Some(diamond_hulls()));
}

#[test]
fn ensuring_twice_is_ensuring_once() {
    let mut plugin = TerrainCollisionPlugin::new();
    let pixels = diamond();
    for _ in 0..2 {
        assert!(plugin.ensure_dynamic_outline_for_image(s("p"), &pixels, NINE, size(), 0, f(1.0)));
        assert_eq!(plugin.active_dynamic_outline_key("p"), Some(key(&pixels)));
        assert_eq!(hulls(&plugin, "p"), Some(diamond_hulls()));
    }
    let other = small_diamond();
    assert!(plugin.ensure_dynamic_outline_for_image(s("p"), &other, NINE, size(), 0, f(1.0)));
    assert_eq!(plugin.active_dynamic_outline_key("p"), Some(key(&other)));
}

#[test]
fn unregistered_outlines_are_gone() {
    let mut plugin = TerrainCollisionPlugin::new();
    register(&mut plugin, "player", &diamond());
    register(&mut plugin, "enemy", &diamond());
    plugin.unregister_dynamic_outline("player");
    assert_eq!(plugin.active_dynamic_outline_key("player"), None);
    assert_eq!(hulls(&plugin, "player"), None);
    assert_eq!(plugin.active_dynamic_outline_key("enemy"), Some(key(&diamond())));
    assert_eq!(hulls(&plugin, "enemy"), Some(diamond_hulls()));
    plugin.unregister_dynamic_outline("nobody");
}

#[test]
fn images_are_their_bytes() {
    let mut plugin = TerrainCollisionPlugin::new();
    let image = picture(diamond(), 9, 9);
    assert!(plugin.register_dynamic_outline_from_image(s("p"), &image, size(), 0, f(1.0)));
    assert_eq!(plugin.active_dynamic_outline_key("p"), Some(key(&diamond())));
    assert_eq!(hulls(&plugin, "p"), Some(diamond_hulls()));
}

#[test]
fn images_that_are_not_square_keep_their_sides() {
    let mut plugin = TerrainCollisionPlugin::new();
    let pixels = shape(12, 6, |x, _| x >= 6);
    let image = picture(pixels.clone(), 12, 6);
    let wide = (f(12.0), f(6.0));
    assert!(plugin.register_dynamic_outline_from_image(s("p"), &image, wide, 0, f(1.0)));
    assert_eq!(
        plugin.active_dynamic_outline_key("p"),
        Some(outline_cache_key(&pixels, 12, 6, wide, 0, f(1.0)))
    );
}

#[test]
fn images_may_hold_more_bytes_than_pixels() {
    let mut plugin = TerrainCollisionPlugin::new();
    let mut pixels = diamond();
    pixels.push(77);
    let image = picture(pixels.clone(), 9, 9);
    assert!(plugin.register_dynamic_outline_from_image(s("p"), &image, size(), 0, f(1.0)));
    assert_eq!(plugin.active_dynamic_outline_key("p"), Some(key(&pixels)));
    assert_eq!(hulls(&plugin, "p"), Some(diamond_hulls()));
}

#[test]
fn blank_images_are_refused() {
    let mut plugin = TerrainCollisionPlugin::new();
    for (w, h) in [(0, 0), (0, 9), (9, 0)] {
        let image = picture(Vec::new(), w, h);
        assert!(!plugin.register_dynamic_outline_from_image(s("p"), &image, size(), 0, f(1.0)));
        assert!(!plugin.on_call(&TerrainCollisionCall::PinCollisionImage {
            name: s("p"),
            image,
            object_size: size(),
            threshold: 0,
            rdp_epsilon: f(1.0),
        }));
    }
    assert_eq!(plugin.active_dynamic_outline_key("p"), None);
}

#[test]
fn images_are_tried_where_an_outline_may_not_be_computable() {
    let mut plugin = TerrainCollisionPlugin::new();
    let image = picture(shape(8, 8, |_, _| true), 8, 8);
    let tried = plugin.try_register_dynamic_outline_from_image(s("p"), &image, size(), 0, f(-1.0));
    assert_eq!(tried, None);
    assert_eq!(plugin.active_dynamic_outline_key("p"), None);
    let tried = plugin.try_register_dynamic_outline_from_image(s("p"), &image, size(), 255, f(-1.0));
    assert_eq!(tried, Some(false));
    let tried = plugin.try_register_dynamic_outline_from_image(s("p"), &image, size(), 0, f(1.0));
    assert_eq!(tried, Some(true));
    assert!(plugin.active_dynamic_outline_key("p").is_some());
}

#[test]
fn commands_do_what_the_methods_do() {
    let mut plugin = TerrainCollisionPlugin::new();
    let ensure = TerrainCollisionCall::EnsureDynamicOutlineForImage {
        name: s("p"),
        rgba_bytes: diamond(),
        sprite_dims: NINE,
        object_size: size(),
        threshold: 0,
        rdp_epsilon: f(1.0),
    };
    assert!(plugin.on_call(&ensure));
    assert_eq!(plugin.active_dynamic_outline_key("p"), Some(key(&diamond())));
    let pin = TerrainCollisionCall::PinCollisionImage {
        name: s("p"),
        image: picture(small_diamond(), 9, 9),
        object_size: size(),
        threshold: 0,
        rdp_epsilon: f(1.0),
    };
    assert!(plugin.on_call(&pin.clone()));
    assert_eq!(plugin.active_dynamic_outline_key("p"), Some(key(&small_diamond())));
    assert!(plugin.on_call(&ensure.clone()));
    assert_eq!(plugin.active_dynamic_outline_key("p"), Some(key(&diamond())));
    let remove = TerrainCollisionCall::UnregisterDynamicOutline { name: s("p") };
    assert!(plugin.on_call(&remove.clone()));
    assert_eq!(plugin.active_dynamic_outline_key("p"), None);
    assert!(plugin.on_call(&remove));
}

#[test]
fn commands_for_invisible_sprites_fail() {
    let mut plugin = TerrainCollisionPlugin::new();
    let ensure = TerrainCollisionCall::EnsureDynamicOutlineForImage {
        name: s("p"),
        rgba_bytes: shape(9, 9, |_, _| false),
        sprite_dims: NINE,
        object_size: size(),
        threshold: 0,
        rdp_epsilon: f(1.0),
    };
    assert!(!plugin.on_call(&ensure));
    assert_eq!(plugin.try_call(&ensure), Some(false));
}

#[test]
fn commands_are_tried_where_an_outline_may_not_be_computable() {
    let mut plugin = TerrainCollisionPlugin::new();
    let short = TerrainCollisionCall::EnsureDynamicOutlineForImage {
        name: s("p"),
        rgba_bytes: vec![255; 7],
        sprite_dims: NINE,
        object_size: size(),
        threshold: 0,
        rdp_epsilon: f(1.0),
    };
    assert_eq!(plugin.try_call(&short), None);
    let pin = |epsilon: f32| TerrainCollisionCall::PinCollisionImage {
        name: s("p"),
        image: picture(diamond(), 9, 9),
        object_size: size(),
        threshold: 0,
        rdp_epsilon: f(epsilon),
    };
    assert_eq!(plugin.try_call(&pin(-1.0)), None);
    assert_eq!(plugin.try_call(&pin(1.0)), Some(true));
    assert_eq!(
        plugin.try_call(&TerrainCollisionCall::UnregisterDynamicOutline { name: s("p") }),
        Some(true)
    );
}

#[test]
fn groups_have_members_in_order() {
    let mut plugin = TerrainCollisionPlugin::new();
    let pixels = diamond();
    for (group, name) in [("g", "a"), ("h", "b"), ("g", "c"), ("g", "a")] {
        assert!(plugin.register_group_member(s(group), s(name), &pixels, NINE, size(), 0, f(1.0)));
    }
    assert_eq!(plugin.obstacle_names(), vec!["a", "c", "a", "b"]);
    plugin.clear_group("g");
    assert_eq!(plugin.obstacle_names(), vec!["b"]);
    plugin.clear_group("nothing");
    assert!(plugin.register_group_member(s("g"), s("d"), &pixels, NINE, size(), 0, f(1.0)));
    assert_eq!(plugin.obstacle_names(), vec!["d", "b"]);
}

#[test]
fn a_removed_group_comes_back_at_the_end() {
    let mut plugin = TerrainCollisionPlugin::new();
    let pixels = diamond();
    for (group, name) in [("g", "a"), ("h", "b")] {
        assert!(plugin.register_group_member(s(group), s(name), &pixels, NINE, size(), 0, f(1.0)));
    }
    assert!(plugin.on_action("remove_group:g"));
    assert_eq!(plugin.obstacle_names(), vec!["b"]);
    assert!(plugin.register_group_member(s("g"), s("c"), &pixels, NINE, size(), 0, f(1.0)));
    assert_eq!(plugin.obstacle_names(), vec!["b", "c"]);
}

#[test]
fn actions_do_what_the_methods_do() {
    let mut plugin = TerrainCollisionPlugin::new();
    let pixels = diamond();
    plugin.register_terrain(s("a"), &pixels, NINE, size(), 0, f(1.0));
    plugin.register_terrain(s("b"), &pixels, NINE, size(), 0, f(1.0));
    plugin.register_group_member(s("g"), s("c"), &pixels, NINE, size(), 0, f(1.0));
    register(&mut plugin, "player", &pixels);
    assert!(plugin.on_action("unregister_terrain:a"));
    assert_eq!(plugin.obstacle_names(), vec!["b", "c"]);
    assert!(plugin.on_action("rebuild:g"));
    assert_eq!(plugin.obstacle_names(), vec!["b"]);
    assert!(plugin.on_action("unregister_dynamic_outline:player"));
    assert_eq!(plugin.active_dynamic_outline_key("player"), None);
    assert!(plugin.on_action("register_dynamic:"));
    assert!(plugin.on_action("unregister_terrain:nothing"));
    assert!(plugin.on_action("remove_group:nothing"));
    assert_eq!(plugin.obstacle_names(), vec!["b"]);
}

#[test]
fn names_in_actions_may_be_anything() {
    let mut plugin = TerrainCollisionPlugin::new();
    let pixels = diamond();
    plugin.register_terrain(s("größe:1"), &pixels, NINE, size(), 0, f(1.0));
    assert!(plugin.on_action("unregister_terrain:größe:1"));
    assert!(plugin.obstacle_names().is_empty());
}

#[test]
fn unknown_actions_do_nothing() {
    let mut plugin = TerrainCollisionPlugin::new();
    plugin.register_terrain(s("a"), &diamond(), NINE, size(), 0, f(1.0));
    for data in ["", "a", "remove_group", "Remove_group:a", " unregister_terrain:a", "rebuild"] {
        assert!(!plugin.on_action(data), "{}", data);
    }
    assert_eq!(plugin.obstacle_names(), vec!["a"]);
}

fn object(x: f32, y: f32, w: f32, h: f32, momentum: (f32, f32)) -> GameObject {
    GameObject {
        position: Vec2::new(f(x), f(y)),
        size: (f(w), f(h)),
        rotation: straight(),
        momentum: Vec2::new(f(momentum.0), f(momentum.1)),
        is_platform: false,
    }
}

fn scene(objects: Vec<(&str, GameObject)>) -> Scene {
    let mut scene = Scene { names: Vec::new(), objects: NameMap::new() };
    for (name, object) in objects {
        scene.names.push(s(name));
        scene.objects.insert(s(name), object);
    }
    scene
}

fn state(scene: &Scene, name: &str) -> ((u32, u32), (u32, u32)) {
    let o = scene.objects.get(&s(name)).unwrap();
    (
        (o.position.x.to_bits(), o.position.y.to_bits()),
        (o.momentum.x.to_bits(), o.momentum.y.to_bits()),
    )
}

fn terrain() -> TerrainCollisionPlugin {
    let mut plugin = TerrainCollisionPlugin::new();
    assert!(plugin.register_terrain(s("rock"), &diamond(), NINE, size(), 0, f(1.0)));
    plugin
}

fn rock() -> GameObject {
    object(10.0, 20.0, 9.0, 9.0, (0.0, 0.0))
}

#[test]
fn a_box_is_taken_out_of_terrain() {
    let plugin = terrain();
    let mut scene = scene(vec![("rock", rock()), ("p", object(12.0, 17.0, 4.0, 6.0, (1.0, 2.0)))]);
    plugin.on_post_update(&mut scene);
    assert_eq!(state(&scene, "p"), ((0x4140_0000, 0x4167_d70a), (0x3f80_0000, 0)));
    assert_eq!(state(&scene, "rock"), ((0x4120_0000, 0x41a0_0000), (0, 0)));
    plugin.on_post_update(&mut scene);
    assert_eq!(state(&scene, "p"), ((0x4140_0000, 0x4167_d70a), (0x3f80_0000, 0)));
}

#[test]
fn an_elastic_box_bounces() {
    let mut plugin = terrain();
    plugin.restitution = f(1.0);
    let mut scene = scene(vec![("rock", rock()), ("p", object(12.0, 17.0, 4.0, 6.0, (1.0, 2.0)))]);
    plugin.on_post_update(&mut scene);
    assert_eq!(state(&scene, "p"), ((0x4140_0000, 0x4167_d70a), (0x3f80_0000, 0xc000_0000)));
    plugin.set_restitution(f(0.0));
    assert_eq!(plugin.restitution.to_bits(), 0);
}

#[test]
fn a_box_that_leaves_keeps_its_momentum() {
    let plugin = terrain();
    let mut scene = scene(vec![("rock", rock()), ("p", object(12.0, 17.0, 4.0, 6.0, (0.0, -2.0)))]);
    plugin.on_post_update(&mut scene);
    assert_eq!(state(&scene, "p"), ((0x4140_0000, 0x4167_d70a), (0, 0xc000_0000)));
}

#[test]
fn pushes_of_several_obstacles_add_up() {
    let mut plugin = terrain();
    assert!(plugin.register_group_member(s("g"), s("tile"), &diamond(), NINE, size(), 0, f(1.0)));
    let mut scene = scene(vec![
        ("p", object(15.0, 17.0, 4.0, 6.0, (0.0, 3.0))),
        ("rock", rock()),
        ("tile", object(18.0, 20.0, 9.0, 9.0, (0.0, 0.0))),
    ]);
    plugin.on_post_update(&mut scene);
    assert_eq!(
        state(&scene, "p"),
        ((0x4180_0e7c, 0x417f_e309), (0x3fc0_0002, 0x3fbf_fffe))
    );
    assert_eq!(state(&scene, "tile").0, (0x4190_0000, 0x41a0_0000));
}

/// A tile whose outline is a rectangle, half a pixel smaller on every side than its
/// image.
fn tile(w: i32) -> Vec<u8> {
    shape(w, 8, |_, _| true)
}

fn tiles(plugin: &mut TerrainCollisionPlugin, group: &str, tiles: &[(&str, u32)]) {
    for (name, w) in tiles {
        let size = (f(*w as f32), f(8.0));
        let pixels = tile(*w as i32);
        assert!(plugin.register_group_member(
            s(group),
            s(name),
            &pixels,
            (*w, 8),
            size,
            0,
            f(40.0)
        ));
    }
}

/// A box that stands across the seam at 8, one unit deep in the tiles.
fn across() -> GameObject {
    object(5.0, -2.5, 6.0, 4.0, (1.0, 2.0))
}

fn after_one_push() -> ((u32, u32), (u32, u32)) {
    let push = -1.0f32 * (1.0f32 + 0.01f32);
    ((5.0f32.to_bits(), (-2.5f32 + push).to_bits()), (1.0f32.to_bits(), 0))
}

#[test]
fn a_box_across_a_seam_is_moved_once() {
    let mut plugin = TerrainCollisionPlugin::new();
    tiles(&mut plugin, "floor", &[("left", 8), ("right", 8)]);
    let mut scene = scene(vec![
        ("p", across()),
        ("left", object(0.0, 0.0, 8.0, 8.0, (0.0, 0.0))),
        ("right", object(8.0, 0.0, 8.0, 8.0, (0.0, 0.0))),
    ]);
    plugin.on_post_update(&mut scene);
    assert_eq!(state(&scene, "p"), after_one_push());
    plugin.on_post_update(&mut scene);
    assert_eq!(state(&scene, "p"), after_one_push());
}

#[test]
fn a_seam_is_like_one_wide_tile() {
    let mut plugin = TerrainCollisionPlugin::new();
    tiles(&mut plugin, "floor", &[("wide", 16)]);
    let mut scene =
        scene(vec![("p", across()), ("wide", object(0.0, 0.0, 16.0, 8.0, (0.0, 0.0)))]);
    plugin.on_post_update(&mut scene);
    assert_eq!(state(&scene, "p"), after_one_push());
}

#[test]
fn a_seam_is_like_either_tile_alone() {
    for name in ["left", "right"] {
        let mut plugin = TerrainCollisionPlugin::new();
        tiles(&mut plugin, "floor", &[("left", 8), ("right", 8)]);
        let x = if name == "left" { 0.0 } else { 8.0 };
        let mut scene =
            scene(vec![("p", across()), (name, object(x, 0.0, 8.0, 8.0, (0.0, 0.0)))]);
        plugin.on_post_update(&mut scene);
        assert_eq!(state(&scene, "p"), after_one_push());
    }
}

#[test]
fn a_box_leaves_uneven_tiles_by_the_farthest_push() {
    let mut plugin = TerrainCollisionPlugin::new();
    tiles(&mut plugin, "floor", &[("left", 8), ("right", 8)]);
    let mut scene = scene(vec![
        ("p", across()),
        ("left", object(0.0, 0.0, 8.0, 8.0, (0.0, 0.0))),
        ("right", object(8.0, -0.5, 8.0, 8.0, (0.0, 0.0))),
    ]);
    plugin.on_post_update(&mut scene);
    let push = -1.0f32 * (1.5f32 + 0.01f32);
    assert_eq!(state(&scene, "p").0, (5.0f32.to_bits(), (-2.5f32 + push).to_bits()));
}

#[test]
fn the_side_of_the_next_tile_does_not_stop_a_box() {
    // one unit deep in the left tile, and less than that beyond the side of the right one
    for tiles_of_floor in [vec![("left", 8), ("right", 8)], vec![("right", 8), ("left", 8)]] {
        let mut plugin = TerrainCollisionPlugin::new();
        tiles(&mut plugin, "floor", &tiles_of_floor);
        let mut scene = scene(vec![
            ("p", object(1.0, -2.5, 7.75, 4.0, (1.0, 2.0))),
            ("left", object(0.0, 0.0, 8.0, 8.0, (0.0, 0.0))),
            ("right", object(8.0, 0.0, 8.0, 8.0, (0.0, 0.0))),
        ]);
        plugin.on_post_update(&mut scene);
        let push = -1.0f32 * (1.0f32 + 0.01f32);
        assert_eq!(
            state(&scene, "p"),
            ((1.0f32.to_bits(), (-2.5f32 + push).to_bits()), (1.0f32.to_bits(), 0))
        );
    }
}

#[test]
fn a_floor_and_a_wall_of_a_group_both_push() {
    let mut plugin = TerrainCollisionPlugin::new();
    tiles(&mut plugin, "corner", &[("floor", 8), ("wall", 8)]);
    let mut scene = scene(vec![
        ("p", object(2.0, -3.5, 7.0, 5.0, (0.0, 0.0))),
        ("floor", object(0.0, 0.0, 8.0, 8.0, (0.0, 0.0))),
        ("wall", object(8.0, -8.0, 8.0, 8.0, (0.0, 0.0))),
    ]);
    plugin.on_post_update(&mut scene);
    let up = -1.0f32 * (1.0f32 + 0.01f32);
    let back = -1.0f32 * (0.5f32 + 0.01f32);
    assert_eq!(
        state(&scene, "p").0,
        ((2.0f32 + back).to_bits(), (-3.5f32 + up).to_bits())
    );
}

#[test]
fn different_groups_push_each_for_itself() {
    let mut plugin = TerrainCollisionPlugin::new();
    tiles(&mut plugin, "floor", &[("left", 8)]);
    tiles(&mut plugin, "other", &[("right", 8)]);
    let mut scene = scene(vec![
        ("p", across()),
        ("left", object(0.0, 0.0, 8.0, 8.0, (0.0, 0.0))),
        ("right", object(8.0, 0.0, 8.0, 8.0, (0.0, 0.0))),
    ]);
    plugin.on_post_update(&mut scene);
    let push = -1.0f32 * (1.0f32 + 0.01f32);
    assert_eq!(state(&scene, "p").0, (5.0f32.to_bits(), (-2.5f32 + (push + push)).to_bits()));
}

#[test]
fn an_outline_across_a_seam_is_moved_once() {
    for floor in [vec![("left", 8), ("right", 8)], vec![("left", 8)], vec![("right", 8)]] {
        let mut plugin = TerrainCollisionPlugin::new();
        tiles(&mut plugin, "floor", &floor);
        let pixels = shape(8, 8, |_, _| true);
        let eight = (f(8.0), f(8.0));
        assert!(plugin.register_dynamic_outline(s("p"), &pixels, (8, 8), eight, 0, f(40.0)));
        let mut scene = scene(vec![
            ("p", object(4.0, -6.0, 8.0, 8.0, (0.0, 0.0))),
            ("left", object(0.0, 0.0, 8.0, 8.0, (0.0, 0.0))),
            ("right", object(8.0, 0.0, 8.0, 8.0, (0.0, 0.0))),
        ]);
        plugin.on_post_update(&mut scene);
        let push = -1.0f32 * (1.0f32 + 0.01f32);
        assert_eq!(state(&scene, "p").0, (4.0f32.to_bits(), (-6.0f32 + push).to_bits()));
    }
}

#[test]
fn an_object_with_an_outline_collides_with_it() {
    let mut plugin = terrain();
    assert!(register(&mut plugin, "p", &diamond()));
    let mut scene = scene(vec![("rock", rock()), ("p", object(12.0, 15.0, 4.0, 6.0, (0.0, 3.0)))]);
    plugin.on_post_update(&mut scene);
    assert_eq!(
        state(&scene, "p"),
        ((0x4148_1cf6, 0x4167_e30a), (0x3fbf_ffff, 0x3fc0_0001))
    );
}

#[test]
fn platforms_stay_unless_they_are_dynamic() {
    let mut plugin = terrain();
    let mut platform = object(12.0, 17.0, 4.0, 6.0, (1.0, 2.0));
    platform.is_platform = true;
    let mut first = scene(vec![("rock", rock()), ("p", platform)]);
    plugin.on_post_update(&mut first);
    assert_eq!(state(&first, "p"), ((0x4140_0000, 0x4188_0000), (0x3f80_0000, 0x4000_0000)));
    plugin.add_dynamic(s("p"));
    plugin.on_post_update(&mut first);
    assert_eq!(state(&first, "p"), ((0x4140_0000, 0x4167_d70a), (0x3f80_0000, 0)));
}

#[test]
fn the_action_for_dynamic_objects_adds_them() {
    let mut plugin = terrain();
    let mut platform = object(12.0, 17.0, 4.0, 6.0, (1.0, 2.0));
    platform.is_platform = true;
    let mut scene = scene(vec![("rock", rock()), ("p", platform)]);
    assert!(plugin.on_action("register_dynamic:p"));
    plugin.on_post_update(&mut scene);
    assert_eq!(state(&scene, "p"), ((0x4140_0000, 0x4167_d70a), (0x3f80_0000, 0)));
}

#[test]
fn obstacles_do_not_push_each_other() {
    let mut plugin = terrain();
    assert!(plugin.register_terrain(s("other"), &diamond(), NINE, size(), 0, f(1.0)));
    assert!(plugin.register_group_member(s("g"), s("tile"), &diamond(), NINE, size(), 0, f(1.0)));
    let mut scene = scene(vec![
        ("rock", rock()),
        ("other", object(11.0, 20.0, 9.0, 9.0, (1.0, 1.0))),
        ("tile", object(10.0, 21.0, 9.0, 9.0, (1.0, 1.0))),
    ]);
    plugin.on_post_update(&mut scene);
    assert_eq!(state(&scene, "rock").0, (0x4120_0000, 0x41a0_0000));
    assert_eq!(state(&scene, "other").0, (0x4130_0000, 0x41a0_0000));
    assert_eq!(state(&scene, "tile").0, (0x4120_0000, 0x41a8_0000));
}

#[test]
fn free_objects_stay() {
    let plugin = terrain();
    let mut scene = scene(vec![("rock", rock()), ("p", object(0.0, 0.0, 4.0, 6.0, (1.0, 2.0)))]);
    plugin.on_post_update(&mut scene);
    assert_eq!(state(&scene, "p"), ((0, 0), (0x3f80_0000, 0x4000_0000)));
}

#[test]
fn obstacles_that_are_not_there_do_not_push() {
    let plugin = terrain();
    let mut scene = scene(vec![("p", object(12.0, 17.0, 4.0, 6.0, (1.0, 2.0)))]);
    scene.names.push(s("ghost"));
    plugin.on_post_update(&mut scene);
    assert_eq!(state(&scene, "p"), ((0x4140_0000, 0x4188_0000), (0x3f80_0000, 0x4000_0000)));
    assert!(scene.objects.get(&s("ghost")).is_none());
    assert_eq!(scene.names, vec!["p", "ghost"]);
}

#[test]
fn unlisted_objects_push_and_stay() {
    let plugin = terrain();
    let mut scene = scene(vec![("p", object(12.0, 17.0, 4.0, 6.0, (1.0, 2.0)))]);
    scene.objects.insert(s("rock"), rock());
    scene.objects.insert(s("q"), object(12.0, 17.0, 4.0, 6.0, (1.0, 2.0)));
    plugin.on_post_update(&mut scene);
    assert_eq!(state(&scene, "p"), ((0x4140_0000, 0x4167_d70a), (0x3f80_0000, 0)));
    assert_eq!(state(&scene, "q"), ((0x4140_0000, 0x4188_0000), (0x3f80_0000, 0x4000_0000)));
}

#[test]
fn a_correction_is_found_before_any_is_made() {
    let plugin = terrain();
    let scene = scene(vec![("rock", rock()), ("p", object(12.0, 17.0, 4.0, 6.0, (1.0, 2.0)))]);
    let c = plugin.correction(&s("p"), &scene).unwrap();
    assert_eq!(c.name, "p");
    assert_eq!((c.pos_delta.x.to_bits(), c.pos_delta.y.to_bits()), (0, 0xc020_a3d7));
    assert_eq!((n(c.mom_delta.x), n(c.mom_delta.y)), (0.0, 2.0));
    assert!(plugin.correction(&s("rock"), &scene).is_none());
    assert!(plugin.correction(&s("nobody"), &scene).is_none());
}

#[test]
fn circles_overlap_dynamic_outlines() {
    let mut plugin = TerrainCollisionPlugin::new();
    register(&mut plugin, "p", &diamond());
    let directions: Vec<Direction> = circle_angles(CIRCLE_SEGMENTS)
        .into_iter()
        .map(|a| Direction { cos: f(n(a).cos()), sin: f(n(a).sin()) })
        .collect();
    let at = |name: &str, x: f32, r: f32| {
        plugin.circle_overlaps_dynamic_outline(
            name,
            (f(x), f(4.5)),
            f(r),
            &directions,
            (f(0.0), f(0.0)),
            straight(),
        )
    };
    assert_eq!(at("p", 9.5, 2.0), Some(true));
    assert_eq!(at("p", 9.5, 0.5), Some(false));
    assert_eq!(at("p", 4.5, 0.0), Some(false));
    assert_eq!(at("q", 4.5, 1.0), None);
}

#[test]
fn names_keep_their_places() {
    let mut map: NameMap<u64> = NameMap::new();
    for (name, value) in [("a", 1), ("b", 2), ("c", 3), ("b", 4)] {
        map.insert(s(name), value);
    }
    assert_eq!(map.get(&s("b")), Some(&4));
    assert_eq!(map.find(&s("c")), 2);
    map.remove(&s("a"));
    assert_eq!(map.find(&s("b")), 0);
    assert_eq!(map.find(&s("a")), 2);
    assert!(!map.contains(&s("a")));
    assert!(map.contains(&s("c")));
    assert_eq!(map.get(&s("a")), None);
}
