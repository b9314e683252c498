use province_editor::bundle::Bundle;
use province_editor::config::Config;
use province_editor::extents::Extents;
use province_editor::problems::{analyze, find_crossings, find_few_borders, find_lone_pixels, is_crossing_at, Problem};
use province_editor::province_map::ProvinceMap;
use province_editor::uord::UOrd;

const R: [u8; 3] = [255, 0, 0];
const G: [u8; 3] = [0, 255, 0];
const B: [u8; 3] = [0, 0, 255];
const K: [u8; 3] = [0, 0, 0];

fn bundle_of(width: u32, height: u32, colors: Vec<[u8; 3]>, extras: bool) -> Bundle {
    let mut config = Config::default();
    config.extra_warnings.enabled = extras;
    config.extra_warnings.lone_pixels = true;
    config.extra_warnings.few_shared_borders = true;
    config.extra_warnings.few_shared_borders_threshold = 3;
    Bundle {
        map: ProvinceMap::new(width, height, &colors).unwrap(),
        config,
        preserved_unsupported_adjacencies: Vec::new(),
    }
}

fn texts(problems: &Vec<Problem>) -> Vec<String> {
    problems.iter().map(|p| p.to_string()).collect()
}

#[test]
fn a_crossing_is_two_colours_across_a_corner() {
    // r g
    // g r
    let bundle = bundle_of(2, 2, vec![R, G, G, R], false);
    assert!(is_crossing_at(bundle.map.base(), [0, 0]));
    // the block that starts in the last column goes on in the first
    assert!(is_crossing_at(bundle.map.base(), [1, 0]));
    let found = find_crossings(bundle.map.base());
    assert_eq!(texts(&found), vec!["Invalid X crossing at [1, 1]", "Invalid X crossing at [0, 1]"]);
    // four colours around a corner are no crossing, nor are two side by side
    let bundle = bundle_of(2, 2, vec![R, G, B, K], false);
    assert!(!is_crossing_at(bundle.map.base(), [0, 0]));
    let bundle = bundle_of(2, 2, vec![R, G, R, G], false);
    assert!(!is_crossing_at(bundle.map.base(), [0, 0]));
    assert!(find_crossings(bundle.map.base()).is_empty());
    let bundle = bundle_of(3, 1, vec![R, G, R], false);
    assert!(find_crossings(bundle.map.base()).is_empty());
}

#[test]
fn lone_pixels_have_no_neighbour_of_their_colour() {
    // r r g
    // b r r
    let bundle = bundle_of(3, 2, vec![R, R, G, B, R, R], true);
    let found = find_lone_pixels(bundle.map.base());
    assert_eq!(texts(&found), vec!["Lone pixel at [2, 0]", "Lone pixel at [0, 1]"]);
    let bundle = bundle_of(1, 1, vec![R], true);
    assert_eq!(texts(&find_lone_pixels(bundle.map.base())), vec!["Lone pixel at [0, 0]"]);
}

#[test]
fn few_borders_are_fewer_than_the_threshold() {
    // r r g g
    // r r g b
    // r r r b
    let bundle = bundle_of(4, 3, vec![R, R, G, G, R, R, G, B, R, R, R, B], true);
    let mut found = texts(&find_few_borders(bundle.map.base(), 3));
    found.sort();
    assert_eq!(
        found,
        vec![
            "Only 1 shared borders between provinces (0, 0, 255) and (255, 0, 0)",
            "Only 2 shared borders between provinces (0, 0, 255) and (0, 255, 0)",
        ]
    );
    assert_eq!(find_few_borders(bundle.map.base(), 1).len(), 0);
    assert_eq!(find_few_borders(bundle.map.base(), 4).len(), 3);
    let found = find_few_borders(bundle.map.base(), 2);
    assert_eq!(found.len(), 1);
    match &found[0] {
        Problem::FewSharedBorders(pair, borders) => {
            assert!(*pair == UOrd::new(R, B));
            assert_eq!(borders.len(), 1);
            assert!(borders[0] == UOrd::new([2, 2], [3, 2]));
        }
        _ => panic!("a finding of another kind"),
    }
}

#[test]
fn the_whole_analysis() {
    // 64 columns and 2 rows: the left half red, the right half green, one
    // blue pixel in the red
    let mut colors = Vec::new();
    for _y in 0..2 {
        for x in 0..64 {
            colors.push(if x < 32 { R } else { G });
        }
    }
    colors[5] = B;
    let bundle = bundle_of(64, 2, colors.clone(), false);
    let mut found = texts(&analyze(&bundle));
    let last = found.pop().unwrap();
    assert_eq!(last, "Map texture height is not a multiple of 64");
    found.sort();
    assert_eq!(
        found,
        vec![
            "Province has only 1 pixels around [5, 0]",
            "Province has too large box from [31, 1] to [0, 0]",
            "Province has too large box from [5, 0] to [5, 0]",
            "Province has too large box from [63, 1] to [32, 0]",
        ]
    );
    let bundle = bundle_of(64, 2, colors, true);
    let found = texts(&bundle.generate_problems());
    assert_eq!(found[0], "Lone pixel at [5, 0]");
    assert!(found.contains(&"Only 2 shared borders between provinces (0, 255, 0) and (255, 0, 0)".to_owned()));
    assert_eq!(found.len(), 7);
    let bundle = bundle_of(3, 128, vec![K; 3 * 128], true);
    let found = texts(&analyze(&bundle));
    assert_eq!(
        found,
        vec!["Province has too large box from [2, 127] to [0, 0]", "Map texture width is not a multiple of 64"]
    );
}

#[test]
fn findings_are_told() {
    assert_eq!(Problem::InvalidWidth.to_string(), "Map texture width is not a multiple of 64");
    assert_eq!(Problem::InvalidHeight.to_string(), "Map texture height is not a multiple of 64");
    assert_eq!(
        Problem::TooLargeBox(Extents::new([9, 8], [1, 2])).to_string(),
        "Province has too large box from [9, 8] to [1, 2]"
    );
    // the centre is rounded to the nearest whole number, halves to the even one
    assert_eq!(Problem::TooFewPixels(2, [5, 7]).to_string(), "Province has only 2 pixels around [2, 4]");
    assert_eq!(Problem::TooFewPixels(3, [4, 5]).to_string(), "Province has only 3 pixels around [1, 2]");
    assert_eq!(Problem::TooFewPixels(8, [4, 3]).to_string(), "Province has only 8 pixels around [0, 0]");
    assert_eq!(Problem::TooFewPixels(8, [12, 20]).to_string(), "Province has only 8 pixels around [2, 2]");
}
