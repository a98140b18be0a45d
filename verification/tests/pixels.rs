use terrain_collision::background::maybe_remove_edge_background_by_color;
use terrain_collision::mask::build_binary_mask;
use terrain_collision::mask::extract_border_pixels;
use terrain_collision::mask::keep_largest_mask_component;

fn mask(rows: &[&str]) -> Vec<bool> {
    rows.iter().flat_map(|r| r.chars().map(|c| c == '#')).collect()
}

fn image(w: usize, h: usize, pixel: fn(usize, usize) -> [u8; 4]) -> Vec<u8> {
    let mut bytes = Vec::new();
    for y in 0..h {
        for x in 0..w {
            bytes.extend_from_slice(&pixel(x, y));
        }
    }
    bytes
}

#[test]
fn visible_is_more_than_the_threshold() {
    let pixels = [0, 0, 0, 127, 0, 0, 0, 128, 255, 255, 255, 129, 1, 1, 1, 255];
    assert_eq!(build_binary_mask(&pixels, 2, 2, 128), vec![false, false, true, true]);
    assert_eq!(build_binary_mask(&[], 0, 5, 0), Vec::<bool>::new());
}

#[test]
fn the_largest_component_is_kept() {
    let m = mask(&["##...", "##..#", "....#", "....#", "....#", "....#"]);
    let kept = mask(&[".....", "....#", "....#", "....#", "....#", "....#"]);
    assert_eq!(keep_largest_mask_component(&m, 5, 6), kept);
}

#[test]
fn of_two_equal_components_the_first_is_kept() {
    let m = mask(&["#..", "#.#", "..#"]);
    assert_eq!(keep_largest_mask_component(&m, 3, 3), mask(&["#..", "#..", "..."]));
}

#[test]
fn corners_do_not_connect() {
    let m = mask(&["#.", ".#"]);
    assert_eq!(keep_largest_mask_component(&m, 2, 2), mask(&["#.", ".."]));
}

#[test]
fn no_pixels_have_no_component() {
    assert_eq!(keep_largest_mask_component(&[], 3, 3), Vec::<bool>::new());
    assert_eq!(keep_largest_mask_component(&[true], 0, 3), Vec::<bool>::new());
    assert_eq!(keep_largest_mask_component(&[false], 1, 1), vec![false]);
}

#[test]
fn the_border_is_listed_by_rows() {
    let m = mask(&["####", "####", "####", "#..."]);
    assert_eq!(
        extract_border_pixels(&m, 4, 4),
        vec![
            (0, 0), (1, 0), (2, 0), (3, 0), (0, 1), (3, 1), (0, 2), (1, 2), (2, 2), (3, 2), (0, 3),
        ]
    );
    assert_eq!(extract_border_pixels(&[], 0, 0), vec![]);
}

#[test]
fn background_of_the_corners_is_removed() {
    let pixels = image(10, 10, |x, y| {
        if (3..7).contains(&x) && (3..7).contains(&y) { [20, 20, 20, 255] } else { [240, 240, 240, 255] }
    });
    let m = build_binary_mask(&pixels, 10, 10, 0);
    let front = maybe_remove_edge_background_by_color(&pixels, 10, 10, &m, 0);
    let expected: Vec<bool> =
        (0..100).map(|i| (3..7).contains(&(i % 10)) && (3..7).contains(&(i / 10))).collect();
    assert_eq!(front, expected);
}

#[test]
fn enclosed_pixels_are_no_background() {
    let pixels = image(12, 12, |x, y| {
        let ring = x.max(y).max(11 - x).max(11 - y);
        if ring == 9 { [20, 20, 20, 255] } else { [240, 240, 240, 255] }
    });
    let m = build_binary_mask(&pixels, 12, 12, 0);
    let front = maybe_remove_edge_background_by_color(&pixels, 12, 12, &m, 0);
    let expected: Vec<bool> =
        (0..144).map(|i| (2..10).contains(&(i % 12)) && (2..10).contains(&(i / 12))).collect();
    assert_eq!(front, expected);
}

#[test]
fn a_sprite_that_leaves_room_has_no_background() {
    let pixels = image(4, 4, |x, y| [9, 9, 9, if x < 2 || y < 2 { 255 } else { 0 }]);
    let m = build_binary_mask(&pixels, 4, 4, 0);
    assert_eq!(maybe_remove_edge_background_by_color(&pixels, 4, 4, &m, 0), m);
}

#[test]
fn a_background_that_is_everything_stays() {
    let pixels = image(6, 6, |_, _| [9, 9, 9, 255]);
    let m = build_binary_mask(&pixels, 6, 6, 0);
    assert_eq!(maybe_remove_edge_background_by_color(&pixels, 6, 6, &m, 0), m);
}

#[test]
fn a_background_that_is_hardly_anything_stays() {
    // only the corners are like their mean, four pixels of 1600
    let pixels = image(40, 40, |x, y| {
        if (x == 0 || x == 39) && (y == 0 || y == 39) { [0, 0, 0, 255] } else { [255, 255, 255, 255] }
    });
    let m = build_binary_mask(&pixels, 40, 40, 0);
    assert_eq!(maybe_remove_edge_background_by_color(&pixels, 40, 40, &m, 0), m);
}

#[test]
fn similar_colours_are_background_up_to_a_distance() {
    // 72 * 72 is within the limit of 5200, and 73 * 73 is not
    for (shade, background) in [(72u8, true), (73, false)] {
        let mut pixels = image(10, 10, |_, _| [0, 0, 0, 255]);
        for i in 0..100usize {
            if (3..7).contains(&(i % 10)) && (3..7).contains(&(i / 10)) {
                pixels[i * 4] = 255;
            } else if i % 10 == 1 {
                pixels[i * 4] = shade;
            }
        }
        let m = build_binary_mask(&pixels, 10, 10, 0);
        let front = maybe_remove_edge_background_by_color(&pixels, 10, 10, &m, 0);
        assert_eq!(front[41], !background);
        assert!(front[44]);
        assert!(!front[49]);
    }
}
