use province_editor::extents::Extents;
use province_editor::kinds::{ConnectionKind, ProvinceKind};
use province_editor::province::ConnectionData;
use province_editor::province_map::{boundary_to_line, p4, ConnectionEnds, ProvinceMap};
use province_editor::uord::UOrd;
use std::collections::HashMap;

const BLACK: [u8; 3] = [0, 0, 0];
const RED: [u8; 3] = [255, 0, 0];
const GREEN: [u8; 3] = [0, 255, 0];
const BLUE: [u8; 3] = [0, 0, 255];

fn blank(width: u32, height: u32, color: [u8; 3]) -> ProvinceMap {
    let colors = vec![color; (width * height) as usize];
    ProvinceMap::new(width, height, &colors).unwrap()
}

/// A raster of two halves: the left columns red, the right ones blue.
fn halves(width: u32, height: u32) -> ProvinceMap {
    let mut colors = Vec::new();
    for _y in 0..height {
        for x in 0..width {
            colors.push(if x < width / 2 { RED } else { BLUE });
        }
    }
    ProvinceMap::new(width, height, &colors).unwrap()
}

fn raster_of(map: &ProvinceMap) -> Vec<[u8; 3]> {
    let mut out = Vec::new();
    for y in 0..map.height() {
        for x in 0..map.width() {
            out.push(map.get_color_at([x, y]));
        }
    }
    out
}

/// Holds the boundary set against the raster and the connections.
fn boundaries_are_exact(map: &ProvinceMap) -> bool {
    let mut want: HashMap<([u32; 2], [u32; 2]), bool> = HashMap::new();
    for y in 0..map.height() {
        for x in 0..map.width() {
            let here = map.get_color_at([x, y]);
            let mut pairs = Vec::new();
            if x + 1 < map.width() {
                pairs.push([x + 1, y]);
            }
            if y + 1 < map.height() {
                pairs.push([x, y + 1]);
            }
            for other in pairs {
                let there = map.get_color_at(other);
                if here != there {
                    want.insert(([x, y], other), map.has_connection(UOrd::new(here, there)));
                }
            }
        }
    }
    let have = map.iter_boundaries();
    if have.len() != want.len() {
        return false;
    }
    for (pair, flag) in have {
        let (a, b) = (pair.a, pair.b);
        let key = if (a[1], a[0]) <= (b[1], b[0]) { (a, b) } else { (b, a) };
        if want.get(&key) != Some(&flag) {
            return false;
        }
    }
    true
}

#[test]
fn new_map_counts_its_pixels() {
    let map = halves(4, 2);
    assert_eq!(map.dimensions(), [4, 2]);
    assert_eq!(map.width(), 4);
    assert_eq!(map.height(), 2);
    assert_eq!(map.provinces_count(), 2);
    assert_eq!(map.connections_count(), 0);
    let red = map.get_province(RED);
    assert_eq!(red.pixel_count, 4);
    assert_eq!(red.pixel_sum, [0 + 1 + 0 + 1, 0 + 0 + 1 + 1]);
    assert_eq!(red.kind, ProvinceKind::Unknown);
    assert_eq!(red.terrain, "unknown");
    assert_eq!(red.continent, 0);
    assert_eq!(red.coastal, None);
    assert_eq!(red.preserved_id, None);
    let blue = map.get_province(BLUE);
    assert_eq!(blue.pixel_count, 4);
    assert_eq!(blue.pixel_sum, [2 + 3 + 2 + 3, 2]);
    assert!(map.validate_pixel_counts());
    assert!(boundaries_are_exact(&map));
    assert_eq!(map.preserved_id_count(), None);
}

#[test]
fn new_map_refuses_wrong_sizes() {
    assert!(ProvinceMap::new(0, 4, &vec![]).is_none());
    assert!(ProvinceMap::new(4, 0, &vec![]).is_none());
    assert!(ProvinceMap::new(2, 2, &vec![BLACK; 3]).is_none());
    assert!(ProvinceMap::new(2, 2, &vec![BLACK; 5]).is_none());
    assert!(ProvinceMap::new(2, 2, &vec![BLACK; 4]).is_some());
}

#[test]
fn paint_one_pixel_moves_one_count() {
    let mut map = blank(4, 4, BLACK);
    map.put_pixel([1, 1], RED);
    assert_eq!(map.get_province(BLACK).pixel_count, 15);
    assert_eq!(map.get_province(RED).pixel_count, 1);
    assert_eq!(map.get_province(RED).kind, ProvinceKind::Unknown);
    assert_eq!(map.get_province(RED).pixel_sum, [1, 1]);
    assert_eq!(map.get_province(BLACK).pixel_sum, [4 * 6 - 1, 4 * 6 - 1]);
    assert_eq!(map.get_color_at([1, 1]), RED);
    assert_eq!(map.get_province_at([1, 1]).pixel_count, 1);
    assert!(map.validate_pixel_counts());
    assert!(boundaries_are_exact(&map));
    assert_eq!(map.iter_boundaries().len(), 4);
}

#[test]
fn painting_a_pixel_in_its_colour_changes_nothing() {
    let mut map = halves(4, 4);
    let before = raster_of(&map);
    map.put_pixel([0, 0], RED);
    assert_eq!(raster_of(&map), before);
    assert_eq!(map.get_province(RED).pixel_count, 8);
    assert_eq!(map.provinces_count(), 2);
    assert!(map.validate_pixel_counts());
}

#[test]
fn last_pixel_takes_the_province_and_its_connections() {
    let mut colors = vec![BLACK; 9];
    colors[4] = RED;
    colors[0] = GREEN;
    let mut map = ProvinceMap::new(3, 3, &colors).unwrap();
    map.add_or_remove_connection(UOrd::new(RED, BLACK), ConnectionKind::Strait);
    map.add_or_remove_connection(UOrd::new(GREEN, BLACK), ConnectionKind::Canal);
    map.put_connection(
        UOrd::new(GREEN, BLACK),
        ConnectionData {
            kind: ConnectionKind::Canal,
            through: Some(RED),
            start: None,
            stop: None,
            rule_name: String::new(),
            comment: String::new(),
        },
    );
    assert_eq!(map.connections_count(), 2);
    map.put_pixel([1, 1], BLACK);
    assert!(!map.has_province(RED));
    assert!(!map.has_connection(UOrd::new(RED, BLACK)));
    assert!(!map.has_connection(UOrd::new(BLACK, RED)));
    assert_eq!(map.connections_count(), 1);
    assert!(map.has_connection(UOrd::new(BLACK, GREEN)));
    assert_eq!(map.get_connection(UOrd::new(GREEN, BLACK)).through, None);
    assert!(map.validate_pixel_counts());
    map.recalculate_specialness();
    assert!(boundaries_are_exact(&map));
}

#[test]
fn many_pixels_keep_the_attributes_of_the_colour() {
    let mut map = halves(4, 2);
    map.set_province_meta(BLUE, ProvinceKind::Sea, "ocean".to_owned(), 0);
    map.put_many_pixels(BLUE, &vec![[0, 0], [1, 0], [0, 1], [1, 1], [2, 0]]);
    assert!(!map.has_province(RED));
    assert_eq!(map.provinces_count(), 1);
    assert_eq!(map.get_province(BLUE).pixel_count, 8);
    assert_eq!(map.get_province(BLUE).kind, ProvinceKind::Sea);
    assert_eq!(map.get_province(BLUE).terrain, "ocean");
    assert!(map.validate_pixel_counts());
    assert!(boundaries_are_exact(&map));
    assert_eq!(map.iter_boundaries().len(), 0);
}

#[test]
fn many_pixels_of_a_new_colour() {
    let mut map = halves(4, 4);
    map.put_many_pixels(GREEN, &vec![[1, 1], [2, 1], [1, 1]]);
    assert_eq!(map.get_province(GREEN).pixel_count, 2);
    assert_eq!(map.get_province(GREEN).pixel_sum, [3, 2]);
    assert_eq!(map.get_province(RED).pixel_count, 7);
    assert_eq!(map.get_province(BLUE).pixel_count, 7);
    assert!(map.validate_pixel_counts());
    assert!(boundaries_are_exact(&map));
    map.put_many_pixels(GREEN, &vec![]);
    assert_eq!(map.get_province(GREEN).pixel_count, 2);
}

#[test]
fn flood_fill_whole_raster() {
    let mut map = blank(4, 4, BLACK);
    let extents: Extents = map.flood_fill_province([0, 0], [1, 1, 1]);
    assert_eq!(extents.lower, [0, 0]);
    assert_eq!(extents.upper, [3, 3]);
    assert!(!map.has_province(BLACK));
    assert_eq!(map.get_province([1, 1, 1]).pixel_count, 16);
    assert_eq!(raster_of(&map), vec![[1, 1, 1]; 16]);
    assert!(map.validate_pixel_counts());
    assert!(boundaries_are_exact(&map));
}

#[test]
fn flood_fill_stops_at_other_colours_and_corners() {
    // r r b b
    // r g b r
    // g g r r
    let g = GREEN;
    let r = RED;
    let b = BLUE;
    let colors = vec![r, r, b, b, r, g, b, r, g, g, r, r];
    let mut map = ProvinceMap::new(4, 3, &colors).unwrap();
    let extents = map.flood_fill_province([0, 0], BLACK);
    assert_eq!(extents.lower, [0, 0]);
    assert_eq!(extents.upper, [1, 1]);
    let k = BLACK;
    assert_eq!(raster_of(&map), vec![k, k, b, b, k, g, b, r, g, g, r, r]);
    assert_eq!(map.get_province(BLACK).pixel_count, 3);
    assert_eq!(map.get_province(RED).pixel_count, 3);
    assert!(map.validate_pixel_counts());
    assert!(boundaries_are_exact(&map));
    let extents = map.flood_fill_province([3, 2], GREEN);
    assert_eq!(extents.lower, [2, 1]);
    assert_eq!(extents.upper, [3, 2]);
    assert!(!map.has_province(RED));
    assert_eq!(map.get_province(GREEN).pixel_count, 6);
    assert!(map.validate_pixel_counts());
    assert!(boundaries_are_exact(&map));
}

#[test]
fn flood_fill_winds_through_a_spiral() {
    // A path of red one pixel wide through blue.
    let rows = [
        "rrrrr", //
        "bbbbr", //
        "rrrbr", //
        "rbbbr", //
        "rrrrr",
    ];
    let mut colors = Vec::new();
    for row in rows {
        for c in row.chars() {
            colors.push(if c == 'r' { RED } else { BLUE });
        }
    }
    let mut map = ProvinceMap::new(5, 5, &colors).unwrap();
    let extents = map.flood_fill_province([2, 2], GREEN);
    assert_eq!((extents.lower, extents.upper), ([0, 0], [4, 4]));
    assert!(!map.has_province(RED));
    assert_eq!(map.get_province(GREEN).pixel_count, 17);
    assert_eq!(map.get_province(BLUE).pixel_count, 8);
    assert!(map.validate_pixel_counts());
    assert!(boundaries_are_exact(&map));
}

#[test]
fn recolor_moves_province_and_connections() {
    let mut colors = vec![RED, RED, BLUE, BLUE, GREEN, GREEN];
    colors.extend(vec![BLACK; 6]);
    let mut map = ProvinceMap::new(6, 2, &colors).unwrap();
    map.set_province_meta(RED, ProvinceKind::Land, "hills".to_owned(), 3);
    map.add_or_remove_connection(UOrd::new(RED, GREEN), ConnectionKind::Strait);
    map.put_connection(
        UOrd::new(GREEN, BLUE),
        ConnectionData {
            kind: ConnectionKind::Impassable,
            through: Some(RED),
            start: Some([1, 2]),
            stop: None,
            rule_name: "rule".to_owned(),
            comment: "comment".to_owned(),
        },
    );
    map.recalculate_specialness();
    assert!(boundaries_are_exact(&map));
    let white = [255, 255, 255];
    let extents = map.recolor_province(RED, white);
    assert_eq!((extents.lower, extents.upper), ([0, 0], [1, 0]));
    assert!(!map.has_province(RED));
    assert_eq!(map.get_province(white).pixel_count, 2);
    assert_eq!(map.get_province(white).kind, ProvinceKind::Land);
    assert_eq!(map.get_province(white).terrain, "hills");
    assert_eq!(map.get_province(white).continent, 3);
    assert_eq!(map.get_color_at([0, 0]), white);
    assert_eq!(map.get_color_at([2, 0]), BLUE);
    assert!(map.has_connection(UOrd::new(GREEN, white)));
    assert!(!map.has_connection(UOrd::new(GREEN, RED)));
    assert_eq!(map.get_connection(UOrd::new(white, GREEN)).kind, ConnectionKind::Strait);
    let through = map.get_connection(UOrd::new(BLUE, GREEN));
    assert_eq!(through.through, Some(white));
    assert_eq!(through.start, Some([1, 2]));
    assert_eq!(through.rule_name, "rule");
    assert_eq!(through.comment, "comment");
    assert_eq!(map.connections_count(), 2);
    assert!(map.validate_pixel_counts());
    assert!(boundaries_are_exact(&map));
}

#[test]
fn colour_extents_bound_the_province() {
    let mut map = blank(8, 8, BLACK);
    map.put_many_pixels(RED, &vec![[2, 5], [6, 1], [3, 3]]);
    let e = map.get_color_extents(RED);
    assert_eq!((e.lower, e.upper), ([2, 1], [6, 5]));
    let e = map.get_color_extents(BLACK);
    assert_eq!((e.lower, e.upper), ([0, 0], [7, 7]));
    let whole = Extents::new_entire_map(&map);
    assert_eq!((whole.lower, whole.upper), ([0, 0], [7, 7]));
}

#[test]
fn connection_is_entered_changed_and_removed() {
    let mut map = halves(4, 2);
    let rel = UOrd::new(RED, BLUE);
    map.add_or_remove_connection(rel, ConnectionKind::Strait);
    assert!(map.has_connection(UOrd::new(BLUE, RED)));
    assert_eq!(map.get_connection(rel).kind, ConnectionKind::Strait);
    assert_eq!(map.get_connection(rel).through, None);
    map.add_or_remove_connection(rel, ConnectionKind::Canal);
    assert_eq!(map.get_connection(rel).kind, ConnectionKind::Canal);
    assert_eq!(map.connections_count(), 1);
    map.add_or_remove_connection(UOrd::new(BLUE, RED), ConnectionKind::Canal);
    assert!(!map.has_connection(rel));
    assert_eq!(map.connections_count(), 0);
}

#[test]
fn specialness_follows_the_connections() {
    let mut map = halves(4, 2);
    assert!(map.iter_boundaries().iter().all(|(_, special)| !special));
    map.add_or_remove_connection(UOrd::new(RED, BLUE), ConnectionKind::Strait);
    map.recalculate_specialness();
    let list = map.iter_boundaries();
    assert_eq!(list.len(), 2);
    assert!(list.iter().all(|(_, special)| *special));
    assert!(boundaries_are_exact(&map));
    map.recalculate_all_boundaries();
    assert!(boundaries_are_exact(&map));
    map.recalculate_boundaries_extents(Extents::new([3, 1], [0, 0]));
    assert!(boundaries_are_exact(&map));
    map.recalculate_boundaries_at([1, 1]);
    assert!(boundaries_are_exact(&map));
}

#[test]
fn coastal_provinces_touch_the_other_element() {
    // land | sea | lake | land, and an island of unknown kind in the sea
    let l1 = RED;
    let sea = BLUE;
    let lake = GREEN;
    let l2 = [9, 9, 9];
    let colors = vec![l1, sea, sea, lake, l2, l1, sea, sea, lake, l2];
    let mut map = ProvinceMap::new(5, 2, &colors).unwrap();
    map.set_province_meta(l1, ProvinceKind::Land, "plains".to_owned(), 1);
    map.set_province_meta(l2, ProvinceKind::Land, "plains".to_owned(), 1);
    map.set_province_meta(sea, ProvinceKind::Sea, "ocean".to_owned(), 0);
    map.set_province_meta(lake, ProvinceKind::Lake, "lakes".to_owned(), 1);
    let coastal = map.calculate_coastal_provinces();
    assert_eq!(coastal.len(), 4);
    let key = |c: [u8; 3]| ((c[0] as u32) << 16) | ((c[1] as u32) << 8) | c[2] as u32;
    assert_eq!(coastal[&key(l1)], Some(true));
    assert_eq!(coastal[&key(sea)], Some(true));
    assert_eq!(coastal[&key(lake)], Some(false));
    assert_eq!(coastal[&key(l2)], Some(false));
    assert_eq!(map.get_province(l1).coastal, None);
    map.apply_coastal(&coastal);
    assert_eq!(map.get_province(l1).coastal, Some(true));
    assert_eq!(map.get_province(l2).coastal, Some(false));
    assert!(!map.has_unknown_provinces());
    map.put_pixel([0, 0], BLACK);
    assert!(map.has_unknown_provinces());
}

#[test]
fn extract_and_buffers() {
    let map = halves(4, 2);
    assert_eq!(map.extract(Extents::new([2, 1], [1, 0])), vec![RED, BLUE, RED, BLUE]);
    let buffer = map.gen_texture_buffer(|c| [c[2], c[1], c[0]]);
    assert_eq!(buffer.len(), 32);
    assert_eq!(&buffer[0..4], &[0, 0, 255, 255]);
    assert_eq!(&buffer[8..12], &[255, 0, 0, 255]);
    let part = map.gen_texture_buffer_selective(Extents::new([2, 1], [1, 0]), |c| c);
    assert_eq!(part, vec![255, 0, 0, 255, 0, 0, 255, 255, 255, 0, 0, 255, 0, 0, 255, 255]);
    let image = map.gen_image_buffer(|c| Some(c)).unwrap();
    assert_eq!(image.len(), 24);
    assert_eq!(&image[0..3], &RED);
    assert!(map.gen_image_buffer(|c| if c == BLUE { None } else { Some(c) }).is_none());
    assert_eq!(p4(RED), [255, 0, 0, 255]);
}

#[test]
fn province_and_connection_lists() {
    let mut map = halves(4, 2);
    map.add_or_remove_connection(UOrd::new(RED, BLUE), ConnectionKind::Impassable);
    let mut provinces = map.iter_province_data();
    provinces.sort_by_key(|(c, _)| *c);
    assert_eq!(provinces.len(), 2);
    assert_eq!(provinces[0].0, BLUE);
    assert_eq!(provinces[0].1.pixel_count, 4);
    assert_eq!(provinces[1].0, RED);
    let connections = map.iter_connection_data();
    assert_eq!(connections.len(), 1);
    assert_eq!(connections[0].0.into_tuple(), (BLUE, RED));
    assert_eq!(connections[0].1.kind, ConnectionKind::Impassable);
    match map.get_connection_positions(UOrd::new(RED, BLUE)) {
        ConnectionEnds::Centres(sum_a, count_a, sum_b, count_b) => {
            assert_eq!((sum_a, count_a), ([10, 2], 4));
            assert_eq!((sum_b, count_b), ([2, 2], 4));
        }
        ConnectionEnds::Given(..) => panic!("no ends were given"),
    }
    map.put_connection(
        UOrd::new(RED, BLUE),
        ConnectionData {
            kind: ConnectionKind::Strait,
            through: None,
            start: Some([1, 0]),
            stop: Some([2, 1]),
            rule_name: String::new(),
            comment: String::new(),
        },
    );
    match map.get_connection_positions(UOrd::new(BLUE, RED)) {
        ConnectionEnds::Given(start, stop) => assert_eq!((start, stop), ([1, 0], [2, 1])),
        ConnectionEnds::Centres(..) => panic!("the ends were given"),
    }
}

#[test]
fn boundary_lines_and_colours() {
    let line = boundary_to_line(UOrd::new([3, 4], [3, 5]));
    assert_eq!((line.a, line.b), ([3, 5], [4, 5]));
    let line = boundary_to_line(UOrd::new([7, 2], [6, 2]));
    assert_eq!((line.a, line.b), ([7, 2], [7, 3]));
    let map = halves(4, 2);
    assert_eq!(map.boundary_color(UOrd::new([1, 0], [2, 0])), [128, 255, 128]);
}

#[test]
fn counts_stay_valid_over_a_mix_of_edits() {
    let mut map = blank(8, 8, BLACK);
    let mut seed: u32 = 12345;
    for step in 0..200 {
        seed = seed.wrapping_mul(1664525).wrapping_add(1013904223);
        let x = (seed >> 8) % 8;
        let y = (seed >> 16) % 8;
        let color = [(seed >> 24) as u8 % 5, 0, 1];
        match step % 4 {
            0 | 1 => map.put_pixel([x, y], color),
            2 => map.put_many_pixels(color, &vec![[x, y], [(x + 1) % 8, y], [x, (y + 1) % 8]]),
            _ => {
                if map.get_color_at([x, y]) != color {
                    map.flood_fill_province([x, y], color);
                }
            }
        }
        assert!(map.validate_pixel_counts());
        assert!(boundaries_are_exact(&map));
        let total: u64 = map.iter_province_data().iter().map(|(_, d)| d.pixel_count).sum();
        assert_eq!(total, 64);
    }
}

#[test]
fn recolouring_into_the_colour_of_another_province_joins_them() {
    // r r b
    // g w b
    let white = [255, 255, 255];
    let mut map = ProvinceMap::new(3, 2, &vec![RED, RED, BLUE, GREEN, white, BLUE]).unwrap();
    map.set_province_meta(RED, ProvinceKind::Land, "hills".to_owned(), 3);
    map.set_province_meta(BLUE, ProvinceKind::Sea, "ocean".to_owned(), 0);
    map.add_or_remove_connection(UOrd::new(RED, GREEN), ConnectionKind::Strait);
    map.add_or_remove_connection(UOrd::new(BLUE, GREEN), ConnectionKind::Canal);
    map.add_or_remove_connection(UOrd::new(RED, BLUE), ConnectionKind::Strait);
    map.put_connection(
        UOrd::new(white, RED),
        ConnectionData {
            kind: ConnectionKind::Impassable,
            through: Some(GREEN),
            start: Some([1, 2]),
            stop: None,
            rule_name: "rule".to_owned(),
            comment: "comment".to_owned(),
        },
    );
    map.put_connection(
        UOrd::new(GREEN, white),
        ConnectionData {
            kind: ConnectionKind::Strait,
            through: Some(RED),
            start: None,
            stop: None,
            rule_name: String::new(),
            comment: String::new(),
        },
    );
    map.recalculate_specialness();
    assert!(boundaries_are_exact(&map));
    assert_eq!(map.connections_count(), 5);
    let extents = map.recolor_province(RED, BLUE);
    assert_eq!((extents.lower, extents.upper), ([0, 0], [1, 0]));
    assert!(!map.has_province(RED));
    assert_eq!(map.provinces_count(), 3);
    assert_eq!(map.get_color_at([0, 0]), BLUE);
    assert_eq!(map.get_color_at([1, 0]), BLUE);
    assert_eq!(map.get_province(BLUE).pixel_count, 4);
    assert_eq!(map.get_province(BLUE).pixel_sum, [0 + 1 + 2 + 2, 0 + 0 + 0 + 1]);
    assert_eq!(map.get_province(BLUE).kind, ProvinceKind::Sea);
    assert_eq!(map.get_province(BLUE).terrain, "ocean");
    // the connection that the other province had stays as it was
    assert!(!map.has_connection(UOrd::new(RED, GREEN)));
    assert_eq!(map.get_connection(UOrd::new(BLUE, GREEN)).kind, ConnectionKind::Canal);
    // the connection between the two is gone
    assert!(!map.has_connection(UOrd::new(RED, BLUE)));
    assert!(!map.has_connection(UOrd::new(BLUE, BLUE)));
    // a connection of the one is a connection of the other
    assert!(!map.has_connection(UOrd::new(white, RED)));
    let moved = map.get_connection(UOrd::new(white, BLUE));
    assert_eq!(moved.kind, ConnectionKind::Impassable);
    assert_eq!(moved.through, Some(GREEN));
    assert_eq!(moved.start, Some([1, 2]));
    assert_eq!(moved.rule_name, "rule");
    // what passed through the one passes through the other
    assert_eq!(map.get_connection(UOrd::new(GREEN, white)).through, Some(BLUE));
    assert_eq!(map.connections_count(), 3);
    assert!(map.validate_pixel_counts());
    assert!(boundaries_are_exact(&map));
}

#[test]
fn edits_that_change_nothing_are_refused() {
    let colors = vec![RED, RED, BLUE, GREEN, BLUE, BLUE];
    let mut map = ProvinceMap::new(3, 2, &colors).unwrap();
    map.add_or_remove_connection(UOrd::new(RED, GREEN), ConnectionKind::Strait);
    map.recalculate_specialness();
    let boundaries = map.iter_boundaries().len();
    assert!(map.recolor_province_checked(RED, RED).is_none());
    assert!(map.recolor_province_checked([9, 9, 9], RED).is_none());
    assert!(map.flood_fill_province_checked([0, 0], RED).is_none());
    assert!(map.flood_fill_province_checked([3, 0], BLUE).is_none());
    assert!(map.flood_fill_province_checked([0, 2], BLUE).is_none());
    for y in 0..2 {
        for x in 0..3 {
            assert_eq!(map.get_color_at([x, y]), colors[(y * 3 + x) as usize]);
        }
    }
    assert_eq!(map.provinces_count(), 3);
    assert_eq!(map.get_province(RED).pixel_count, 2);
    assert_eq!(map.connections_count(), 1);
    assert_eq!(map.iter_boundaries().len(), boundaries);
    assert!(map.validate_pixel_counts());
    assert!(boundaries_are_exact(&map));
    let extents = map.flood_fill_province_checked([0, 0], GREEN).unwrap();
    assert_eq!((extents.lower, extents.upper), ([0, 0], [1, 0]));
    assert_eq!(map.get_province(GREEN).pixel_count, 3);
    let extents = map.recolor_province_checked(GREEN, [9, 9, 9]).unwrap();
    assert_eq!((extents.lower, extents.upper), ([0, 0], [1, 1]));
    assert!(map.validate_pixel_counts());
    assert!(boundaries_are_exact(&map));
}

#[test]
fn a_connection_makes_the_boundary_flags_right() {
    // the flags are stale after the map's own edit of the connections
    let mut map = ProvinceMap::new(2, 1, &vec![RED, BLUE]).unwrap();
    map.add_or_remove_connection(UOrd::new(RED, BLUE), ConnectionKind::Strait);
    assert!(!map.iter_boundaries()[0].1);
    map.recalculate_specialness();
    assert!(map.iter_boundaries()[0].1);
    assert!(boundaries_are_exact(&map));
}
