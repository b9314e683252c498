use province_editor::command::{commands_list, controls_list, parse_words, Command};
use province_editor::config::{default_terrains, find_terrain};
use province_editor::problems::{find_size_problems, is_lone, round_div, stringify_pos, Problem};
use province_editor::kinds::ProvinceKind;
use province_editor::palette::KindColors;
use province_editor::province_map::ProvinceMap;
use province_editor::rows::{Adjacency, Definition};
use province_editor::text::parse_unsigned;

const RED: [u8; 3] = [255, 0, 0];
const BLUE: [u8; 3] = [0, 0, 255];

#[test]
fn numbers_are_read_up_to_a_limit() {
    assert_eq!(parse_unsigned("0", 10), Some(0));
    assert_eq!(parse_unsigned("10", 10), Some(10));
    assert_eq!(parse_unsigned("11", 10), None);
    assert_eq!(parse_unsigned("+7", 10), Some(7));
    assert_eq!(parse_unsigned("007", 10), Some(7));
    assert_eq!(parse_unsigned("", 10), None);
    assert_eq!(parse_unsigned("+", 10), None);
    assert_eq!(parse_unsigned("-1", 10), None);
    assert_eq!(parse_unsigned("1 ", 10), None);
    assert_eq!(parse_unsigned("18446744073709551615", u64::MAX), Some(u64::MAX));
    assert_eq!(parse_unsigned("18446744073709551616", u64::MAX), None);
}

#[test]
fn quotients_are_rounded_to_the_even_neighbour() {
    assert_eq!(round_div(0, 1), 0);
    assert_eq!(round_div(7, 1), 7);
    assert_eq!(round_div(1, 2), 0);
    assert_eq!(round_div(3, 2), 2);
    assert_eq!(round_div(5, 2), 2);
    assert_eq!(round_div(7, 2), 4);
    assert_eq!(round_div(4, 3), 1);
    assert_eq!(round_div(5, 3), 2);
    assert_eq!(round_div(20, 8), 2);
    assert_eq!(round_div(28, 8), 4);
    assert_eq!(round_div(29, 8), 4);
    assert_eq!(round_div(u64::MAX, 2), 1 << 63);
    assert_eq!(stringify_pos(3, 40), "[3, 40]");
    assert_eq!(Problem::TooFewPixels(2, [5, 3]).to_string(), "Province has only 2 pixels around [2, 2]");
    assert_eq!(Problem::TooFewPixels(2, [3, 7]).to_string(), "Province has only 2 pixels around [2, 4]");
}

#[test]
fn sizes_are_multiples_of_sixty_four() {
    let map = ProvinceMap::new(64, 128, &vec![RED; 64 * 128]).unwrap();
    assert!(find_size_problems(map.base()).is_empty());
    let map = ProvinceMap::new(2, 64, &vec![RED; 128]).unwrap();
    let found: Vec<String> = find_size_problems(map.base()).iter().map(|p| p.to_string()).collect();
    assert_eq!(found, vec!["Map texture width is not a multiple of 64"]);
    let map = ProvinceMap::new(64, 2, &vec![RED; 128]).unwrap();
    let found: Vec<String> = find_size_problems(map.base()).iter().map(|p| p.to_string()).collect();
    assert_eq!(found, vec!["Map texture height is not a multiple of 64"]);
    let map = ProvinceMap::new(3, 1, &vec![RED, BLUE, RED]).unwrap();
    let found: Vec<String> = find_size_problems(map.base()).iter().map(|p| p.to_string()).collect();
    assert_eq!(
        found,
        vec!["Map texture width is not a multiple of 64", "Map texture height is not a multiple of 64"]
    );
    assert!(is_lone(map.base(), 1));
}

#[test]
fn province_attributes_are_set() {
    let mut map = ProvinceMap::new(2, 1, &vec![RED, BLUE]).unwrap();
    map.set_province_continent(RED, 4);
    map.set_province_id(BLUE, Some(9));
    assert_eq!(map.get_province(RED).continent, 4);
    assert_eq!(map.get_province(RED).preserved_id, None);
    assert_eq!(map.get_province(BLUE).preserved_id, Some(9));
    assert_eq!(map.get_province(BLUE).continent, 0);
    assert_eq!(map.preserved_id_count(), None);
    map.set_preserved_id_count(Some(10));
    assert_eq!(map.preserved_id_count(), Some(10));
    assert!(map.validate_pixel_counts());

    let kept = map.snapshot();
    map.put_pixel([0, 0], BLUE);
    assert!(!map.has_province(RED));
    map.restore(&kept);
    assert!(map.has_province(RED));
    assert_eq!(map.get_color_at([0, 0]), RED);
    assert_eq!(map.get_province(RED).continent, 4);
    assert_eq!(map.preserved_id_count(), Some(10));
    assert_eq!(map.iter_boundaries().len(), 1);
}

#[test]
fn every_province_gets_another_colour() {
    let mut map = ProvinceMap::new(3, 1, &vec![RED, BLUE, RED]).unwrap();
    map.set_province_continent(RED, 4);
    map.set_province_meta(BLUE, ProvinceKind::Sea, "ocean".to_owned(), 0);
    let few = KindColors {
        land: vec![[1, 1, 1], [2, 2, 2]],
        sea: vec![[0, 0, 0], [3, 3, 3]],
        lake: vec![],
        unknown: vec![[0, 0, 0]],
    };
    assert!(map.recolor_everything(&few).is_none());
    assert_eq!(map.get_color_at([0, 0]), RED);
    let candidates = KindColors {
        land: vec![[1, 1, 1], [2, 2, 2]],
        sea: vec![[0, 0, 0], [3, 3, 3]],
        lake: vec![],
        unknown: vec![[0, 0, 0], [3, 3, 3], [4, 4, 4]],
    };
    assert!(map.recolor_everything(&candidates).is_none());
    let candidates = KindColors {
        land: vec![[1, 1, 1], [2, 2, 2]],
        sea: vec![[0, 0, 0], [3, 3, 3]],
        lake: vec![],
        unknown: vec![[0, 0, 0], [4, 4, 4], [4, 4, 4]],
    };
    let through = map.recolor_everything(&candidates).unwrap();
    assert_eq!(through.len(), 2);
    let first = map.get_color_at([0, 0]);
    let second = map.get_color_at([1, 0]);
    assert_eq!(map.get_color_at([2, 0]), first);
    assert!(first != second);
    assert_eq!(first, [4, 4, 4]);
    assert_eq!(second, [3, 3, 3]);
    assert_eq!(map.get_province(first).continent, 4);
    assert_eq!(map.get_province(first).pixel_count, 2);
    assert_eq!(map.provinces_count(), 2);
    assert!(map.validate_pixel_counts());
}

#[test]
fn words_make_commands() {
    let words = |text: &str| text.split_whitespace().map(str::to_owned).collect::<Vec<String>>();
    assert!(matches!(parse_words(&words("")), Command::Empty));
    assert!(matches!(parse_words(&words("help")), Command::Help));
    assert!(matches!(parse_words(&words("commands now")), Command::Commands));
    assert!(matches!(parse_words(&words("controls")), Command::Controls));
    assert!(matches!(parse_words(&words("select")), Command::SelectNothing));
    match parse_words(&words("select sea please")) {
        Command::Select(arg) => assert_eq!(arg, "sea"),
        _ => panic!("a selection was asked for"),
    }
    match parse_words(&words("paint")) {
        Command::Invalid(name) => assert_eq!(name, "paint"),
        _ => panic!("there is no such command"),
    }
    assert_eq!(commands_list().len(), 3);
    assert_eq!(commands_list()[0], ("help", "Basic help"));
    assert_eq!(controls_list()[0], ("1", "Color map mode"));
}

#[test]
fn terrains_are_found_by_name() {
    let terrains = default_terrains();
    let at = find_terrain(&terrains, "forest");
    assert!(at < terrains.len());
    assert_eq!(terrains[at].name, "forest");
    assert_eq!(find_terrain(&terrains, "Forest"), terrains.len());
}

#[test]
fn tables_have_a_header_before_the_rows() {
    let rows = Definition::to_records(&Vec::new());
    assert_eq!(rows.len(), 1);
    assert_eq!(rows[0][0], "0");
    let rows = Adjacency::to_records(&Vec::new());
    assert_eq!(rows.len(), 2);
    assert_eq!(rows[0][0], "From");
    assert_eq!(rows[1][0], "-1");
    assert!(Definition::from_records(Vec::new()).unwrap().is_empty());
    assert!(Adjacency::from_records(Vec::new()).unwrap().is_empty());
}
