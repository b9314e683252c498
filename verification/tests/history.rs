use province_editor::bundle::Bundle;
use province_editor::config::Config;
use province_editor::extents::Extents;
use province_editor::history::{Commit, History, StepOrigin};
use province_editor::kinds::{BrushMask, ConnectionKind, ProvinceKind, ViewMode};
use province_editor::palette::KindColors;
use province_editor::province_map::ProvinceMap;
use province_editor::uord::UOrd;

const BLACK: [u8; 3] = [0, 0, 0];
const RED: [u8; 3] = [255, 0, 0];
const GREEN: [u8; 3] = [0, 255, 0];
const BLUE: [u8; 3] = [0, 0, 255];

fn bundle_of(width: u32, height: u32, colors: Vec<[u8; 3]>) -> Bundle {
    Bundle {
        map: ProvinceMap::new(width, height, &colors).unwrap(),
        config: Config::default(),
        preserved_unsupported_adjacencies: Vec::new(),
    }
}

fn blank(width: u32, height: u32) -> Bundle {
    bundle_of(width, height, vec![BLACK; (width * height) as usize])
}

/// The raster and both tables, in an order that does not depend on how
/// the tables are walked.
fn state_of(map: &ProvinceMap) -> (Vec<[u8; 3]>, Vec<String>, Vec<String>) {
    let mut raster = Vec::new();
    for y in 0..map.height() {
        for x in 0..map.width() {
            raster.push(map.get_color_at([x, y]));
        }
    }
    let mut provinces: Vec<String> =
        map.iter_province_data().iter().map(|(c, d)| format!("{:?} {:?}", c, d)).collect();
    provinces.sort();
    let mut connections: Vec<String> = map
        .iter_connection_data()
        .iter()
        .map(|(rel, d)| format!("{:?} {:?}", rel.into_tuple(), d))
        .collect();
    connections.sort();
    (raster, provinces, connections)
}

#[test]
fn paint_one_pixel_and_undo() {
    let mut bundle = blank(4, 4);
    let mut history = History::new(8, &bundle.map);
    let start = state_of(&bundle.map);
    let extents = history.paint_pixel(&mut bundle, [1, 1], RED, 1).unwrap();
    assert_eq!((extents.lower, extents.upper), ([1, 1], [1, 1]));
    assert_eq!(bundle.map.get_province(BLACK).pixel_count, 15);
    assert_eq!(bundle.map.get_province(RED).pixel_count, 1);
    assert_eq!(bundle.map.get_province(RED).kind, ProvinceKind::Unknown);
    assert_eq!(bundle.map.provinces_count(), 2);
    let commit = history.undo(&mut bundle.map);
    assert_eq!(commit, Some(Commit { view_mode: ViewMode::Color }));
    assert_eq!(state_of(&bundle.map), start);
    assert_eq!(bundle.map.provinces_count(), 1);
    assert!(!bundle.map.has_province(RED));
    assert_eq!(bundle.map.get_province(BLACK).pixel_count, 16);
    assert!(bundle.map.validate_pixel_counts());
    assert_eq!(history.undo(&mut bundle.map), None);
}

#[test]
fn painting_the_same_colour_is_no_edit() {
    let mut bundle = blank(4, 4);
    let mut history = History::new(8, &bundle.map);
    assert!(history.paint_pixel(&mut bundle, [1, 1], BLACK, 1).is_none());
    assert!(history.paint_pixel_bucket(&mut bundle, [0, 0], BLACK, None).is_none());
    assert!(history.paint_entire_province(&mut bundle, [0, 0], BLACK).is_none());
    assert_eq!(history.undo(&mut bundle.map), None);
    assert_eq!(history.redo(&mut bundle.map), None);
    assert_eq!(bundle.map.get_province(BLACK).pixel_count, 16);
}

#[test]
fn undo_and_redo_go_back_and_forth() {
    let mut bundle = blank(4, 4);
    let mut history = History::new(16, &bundle.map);
    let mut states = vec![state_of(&bundle.map)];
    history.paint_pixel(&mut bundle, [0, 0], RED, 1).unwrap();
    states.push(state_of(&bundle.map));
    history.paint_pixel_bucket(&mut bundle, [3, 3], GREEN, None).unwrap();
    states.push(state_of(&bundle.map));
    history.paint_entire_province(&mut bundle, [0, 0], BLUE).unwrap();
    states.push(state_of(&bundle.map));
    history.add_or_remove_connection(&mut bundle, UOrd::new(BLUE, GREEN), ConnectionKind::Canal);
    states.push(state_of(&bundle.map));
    history.paint_province_continent(&mut bundle, [3, 3], 7).unwrap();
    states.push(state_of(&bundle.map));
    let n = states.len() - 1;
    for i in (0..n).rev() {
        assert!(history.undo(&mut bundle.map).is_some());
        assert_eq!(state_of(&bundle.map), states[i]);
        assert!(bundle.map.validate_pixel_counts());
    }
    assert!(history.undo(&mut bundle.map).is_none());
    for i in 1..=n {
        assert!(history.redo(&mut bundle.map).is_some());
        assert_eq!(state_of(&bundle.map), states[i]);
    }
    assert!(history.redo(&mut bundle.map).is_none());
    assert_eq!(state_of(&bundle.map), states[n]);
}

#[test]
fn undo_gives_the_view_of_the_state_it_lands_on() {
    let mut bundle = blank(4, 4);
    let mut history = History::new(16, &bundle.map);
    history.paint_province_continent(&mut bundle, [0, 0], 4).unwrap();
    history.paint_pixel(&mut bundle, [0, 0], RED, 1).unwrap();
    assert_eq!(history.undo(&mut bundle.map), Some(Commit { view_mode: ViewMode::Continent }));
    assert_eq!(history.undo(&mut bundle.map), Some(Commit { view_mode: ViewMode::Color }));
    assert_eq!(history.redo(&mut bundle.map), Some(Commit { view_mode: ViewMode::Continent }));
    assert_eq!(history.redo(&mut bundle.map), Some(Commit { view_mode: ViewMode::Color }));
}

#[test]
fn an_edit_after_undo_drops_what_was_undone() {
    let mut bundle = blank(4, 4);
    let mut history = History::new(16, &bundle.map);
    history.paint_pixel(&mut bundle, [0, 0], RED, 1).unwrap();
    history.paint_pixel(&mut bundle, [1, 0], GREEN, 2).unwrap();
    history.undo(&mut bundle.map).unwrap();
    history.paint_pixel(&mut bundle, [2, 0], BLUE, 3).unwrap();
    assert!(history.redo(&mut bundle.map).is_none());
    assert!(!bundle.map.has_province(GREEN));
    history.undo(&mut bundle.map).unwrap();
    assert!(!bundle.map.has_province(BLUE));
    assert!(bundle.map.has_province(RED));
    history.undo(&mut bundle.map).unwrap();
    assert!(!bundle.map.has_province(RED));
    assert!(history.undo(&mut bundle.map).is_none());
}

#[test]
fn edits_of_one_stroke_are_one_step() {
    let mut bundle = blank(4, 4);
    let mut history = History::new(16, &bundle.map);
    history.paint_pixel(&mut bundle, [0, 0], RED, 7).unwrap();
    history.paint_pixel(&mut bundle, [1, 0], RED, 7).unwrap();
    history.paint_pixel(&mut bundle, [2, 0], RED, 7).unwrap();
    assert_eq!(bundle.map.get_province(RED).pixel_count, 3);
    history.undo(&mut bundle.map).unwrap();
    assert!(!bundle.map.has_province(RED));
    assert!(history.undo(&mut bundle.map).is_none());
    history.redo(&mut bundle.map).unwrap();
    assert_eq!(bundle.map.get_province(RED).pixel_count, 3);
    // another stroke is another step
    history.paint_pixel(&mut bundle, [3, 0], RED, 8).unwrap();
    history.undo(&mut bundle.map).unwrap();
    assert_eq!(bundle.map.get_province(RED).pixel_count, 3);
    // a stroke of the other tool with the same number does not join
    assert!(!StepOrigin::PaintPixel(7).can_merge_with(StepOrigin::PaintPixelArea(7)));
    assert!(StepOrigin::PaintPixelArea(7).can_merge_with(StepOrigin::PaintPixelArea(7)));
    assert!(!StepOrigin::PaintPixelArea(7).can_merge_with(StepOrigin::PaintPixelArea(8)));
    assert!(!StepOrigin::PaintPixelLasso.can_merge_with(StepOrigin::PaintPixelLasso));
}

#[test]
fn a_finished_stroke_takes_no_more_edits() {
    let mut bundle = blank(4, 4);
    let mut history = History::new(16, &bundle.map);
    history.paint_pixel(&mut bundle, [0, 0], RED, 7).unwrap();
    history.finish_last_step();
    history.paint_pixel(&mut bundle, [1, 0], RED, 7).unwrap();
    history.undo(&mut bundle.map).unwrap();
    assert_eq!(bundle.map.get_province(RED).pixel_count, 1);
    history.undo(&mut bundle.map).unwrap();
    assert!(!bundle.map.has_province(RED));
}

#[test]
fn the_oldest_state_leaves_when_there_are_too_many() {
    let mut bundle = blank(8, 1);
    let mut history = History::new(3, &bundle.map);
    for x in 0..6u32 {
        history.paint_pixel(&mut bundle, [x, 0], [1, 2, x as u8 + 1], 100 + x).unwrap();
    }
    // three states are kept: those after the fourth, fifth and sixth edit
    assert!(history.undo(&mut bundle.map).is_some());
    assert!(history.undo(&mut bundle.map).is_some());
    assert!(history.undo(&mut bundle.map).is_none());
    assert_eq!(bundle.map.provinces_count(), 5);
    assert_eq!(bundle.map.get_color_at([3, 0]), [1, 2, 4]);
    assert_eq!(bundle.map.get_color_at([4, 0]), BLACK);
    assert!(bundle.map.validate_pixel_counts());
    assert!(history.redo(&mut bundle.map).is_some());
    assert!(history.redo(&mut bundle.map).is_some());
    assert!(history.redo(&mut bundle.map).is_none());
    assert_eq!(bundle.map.get_color_at([5, 0]), [1, 2, 6]);
}

#[test]
fn brush_paints_what_the_mask_lets_through() {
    let sea = BLUE;
    let land = GREEN;
    let mut bundle = bundle_of(4, 1, vec![sea, sea, land, land]);
    bundle.map.set_province_meta(sea, ProvinceKind::Sea, "ocean".to_owned(), 0);
    bundle.map.set_province_meta(land, ProvinceKind::Land, "plains".to_owned(), 1);
    let mut history = History::new(8, &bundle.map);
    let all = vec![[0, 0], [1, 0], [2, 0], [3, 0], [9, 9]];
    let picked = bundle.brush_pixels(&all, RED, Some(BrushMask::Sea));
    assert_eq!(picked, vec![[0, 0], [1, 0]]);
    assert_eq!(bundle.brush_pixels(&all, RED, Some(BrushMask::LandLakes)), vec![[2, 0], [3, 0]]);
    assert_eq!(bundle.brush_pixels(&all, sea, None), vec![[2, 0], [3, 0]]);
    let extents = Extents::new([3, 0], [0, 0]);
    let r = history.paint_pixel_area(&mut bundle, extents, &vec![[1, 0], [2, 0]], RED, Some(BrushMask::Sea), 1);
    assert_eq!(r.map(|e| (e.lower, e.upper)), Some(([0, 0], [3, 0])));
    assert_eq!(bundle.map.get_color_at([1, 0]), RED);
    assert_eq!(bundle.map.get_color_at([2, 0]), land);
    // the new province is of unknown kind, which every mask lets through
    let r = history.paint_pixel_area(&mut bundle, extents, &vec![[1, 0]], land, Some(BrushMask::Sea), 1);
    assert!(r.is_some());
    let r = history.paint_pixel_lasso(&mut bundle, extents, &vec![[2, 0], [3, 0]], RED, Some(BrushMask::Sea));
    assert!(r.is_none());
    let r = history.paint_pixel_lasso(&mut bundle, extents, &vec![[2, 0], [3, 0]], RED, None);
    assert!(r.is_some());
    assert!(!bundle.map.has_province(land) || bundle.map.get_province(land).pixel_count == 1);
    assert!(history.paint_pixel_bucket(&mut bundle, [0, 0], RED, Some(BrushMask::LandLakes)).is_none());
    assert!(history.paint_pixel_bucket(&mut bundle, [0, 0], RED, Some(BrushMask::Sea)).is_some());
    assert!(bundle.map.validate_pixel_counts());
}

#[test]
fn kind_is_painted_with_terrain_continent_and_colour() {
    let mut bundle = blank(4, 4);
    let mut history = History::new(8, &bundle.map);
    assert!(history.paint_province_kind(&mut bundle, [0, 0], ProvinceKind::Unknown, RED).is_none());
    assert!(history.paint_province_kind(&mut bundle, [0, 0], ProvinceKind::Land, BLACK).is_none());
    let extents = history.paint_province_kind(&mut bundle, [0, 0], ProvinceKind::Land, RED).unwrap();
    assert_eq!((extents.lower, extents.upper), ([0, 0], [3, 3]));
    assert!(!bundle.map.has_province(BLACK));
    let p = bundle.map.get_province(RED);
    assert_eq!(p.kind, ProvinceKind::Land);
    assert_eq!(p.terrain, "plains");
    assert_eq!(p.continent, 1);
    assert_eq!(p.pixel_count, 16);
    assert!(history.paint_province_kind(&mut bundle, [0, 0], ProvinceKind::Land, GREEN).is_none());
    history.paint_province_kind(&mut bundle, [0, 0], ProvinceKind::Sea, GREEN).unwrap();
    let p = bundle.map.get_province(GREEN);
    assert_eq!((p.kind, p.terrain.as_str(), p.continent), (ProvinceKind::Sea, "ocean", 0));
    history.paint_province_kind(&mut bundle, [0, 0], ProvinceKind::Lake, BLUE).unwrap();
    let p = bundle.map.get_province(BLUE);
    assert_eq!((p.kind, p.terrain.as_str(), p.continent), (ProvinceKind::Lake, "lakes", 0));
    assert_eq!(history.undo(&mut bundle.map), Some(Commit { view_mode: ViewMode::Kind }));
    assert_eq!(bundle.map.get_province(GREEN).kind, ProvinceKind::Sea);
}

#[test]
fn terrain_is_painted_with_its_kind() {
    let mut bundle = blank(4, 4);
    let mut history = History::new(8, &bundle.map);
    assert!(history.paint_province_terrain(&mut bundle, [0, 0], "unknown".to_owned(), RED).is_none());
    // the kind changes with the terrain, so the new colour is needed
    assert!(history.paint_province_terrain(&mut bundle, [0, 0], "forest".to_owned(), BLACK).is_none());
    history.paint_province_terrain(&mut bundle, [0, 0], "forest".to_owned(), RED).unwrap();
    let p = bundle.map.get_province(RED);
    assert_eq!((p.kind, p.terrain.as_str(), p.continent), (ProvinceKind::Land, "forest", 1));
    // the kind stays, so does the colour
    history.paint_province_terrain(&mut bundle, [0, 0], "hills".to_owned(), BLACK).unwrap();
    let p = bundle.map.get_province(RED);
    assert_eq!((p.kind, p.terrain.as_str()), (ProvinceKind::Land, "hills"));
    // a terrain that the settings do not know makes the kind unknown
    history.paint_province_terrain(&mut bundle, [0, 0], "swamp".to_owned(), GREEN).unwrap();
    let p = bundle.map.get_province(GREEN);
    assert_eq!((p.kind, p.terrain.as_str()), (ProvinceKind::Unknown, "swamp"));
    assert_eq!(bundle.search_unknown_terrains(), Some(vec!["swamp".to_owned()]));
}

#[test]
fn continent_must_fit_the_kind() {
    let mut bundle = blank(4, 4);
    let mut history = History::new(8, &bundle.map);
    assert!(history.paint_province_continent(&mut bundle, [0, 0], 0).is_none());
    assert!(history.paint_province_continent(&mut bundle, [0, 0], 5).is_some());
    history.paint_province_kind(&mut bundle, [0, 0], ProvinceKind::Sea, BLUE).unwrap();
    assert!(history.paint_province_continent(&mut bundle, [0, 0], 5).is_none());
    history.paint_province_kind(&mut bundle, [0, 0], ProvinceKind::Land, GREEN).unwrap();
    assert_eq!(bundle.map.get_province(GREEN).continent, 1);
    assert!(history.paint_province_continent(&mut bundle, [0, 0], 0).is_none());
    assert!(history.paint_province_continent(&mut bundle, [0, 0], 2).is_some());
}

#[test]
fn entire_province_is_painted_into_another() {
    let mut bundle = bundle_of(3, 1, vec![RED, BLUE, RED]);
    bundle.map.set_province_meta(BLUE, ProvinceKind::Sea, "ocean".to_owned(), 0);
    let mut history = History::new(8, &bundle.map);
    assert!(history.paint_entire_province(&mut bundle, [0, 0], RED).is_none());
    assert_eq!(history.undo(&mut bundle.map), None);
    assert!(history.paint_entire_province(&mut bundle, [0, 0], GREEN).is_some());
    assert_eq!(bundle.map.get_color_at([0, 0]), GREEN);
    assert_eq!(bundle.map.get_color_at([2, 0]), GREEN);
    assert_eq!(bundle.map.provinces_count(), 2);
    // into the colour of another province: the pixels go to that province
    let extents = history.paint_entire_province(&mut bundle, [0, 0], BLUE).unwrap();
    assert_eq!(extents.lower, [0, 0]);
    assert_eq!(extents.upper, [2, 0]);
    assert_eq!(bundle.map.provinces_count(), 1);
    assert!(!bundle.map.has_province(GREEN));
    assert_eq!(bundle.map.get_province(BLUE).pixel_count, 3);
    assert_eq!(bundle.map.get_province(BLUE).pixel_sum, [3, 0]);
    assert_eq!(bundle.map.get_province(BLUE).kind, ProvinceKind::Sea);
    assert!(bundle.map.iter_boundaries().is_empty());
    assert!(bundle.map.validate_pixel_counts());
    assert!(history.undo(&mut bundle.map).is_some());
    assert_eq!(bundle.map.provinces_count(), 2);
    assert_eq!(bundle.map.get_province(GREEN).pixel_count, 2);
    assert_eq!(bundle.map.get_province(BLUE).pixel_count, 1);
}

#[test]
fn connections_through_the_history() {
    let mut bundle = bundle_of(2, 1, vec![RED, BLUE]);
    let mut history = History::new(8, &bundle.map);
    assert!(!history.add_or_remove_connection(&mut bundle, UOrd::new(RED, RED), ConnectionKind::Strait));
    assert!(!history.add_or_remove_connection(&mut bundle, UOrd::new(RED, GREEN), ConnectionKind::Strait));
    assert!(history.add_or_remove_connection(&mut bundle, UOrd::new(RED, BLUE), ConnectionKind::Strait));
    assert_eq!(bundle.map.iter_boundaries(), vec![(UOrd::new([0, 0], [1, 0]), true)].into_iter().map(|(u, f)| (u, f)).collect::<Vec<_>>());
    assert!(history.add_or_remove_connection(&mut bundle, UOrd::new(BLUE, RED), ConnectionKind::Strait));
    assert_eq!(bundle.map.connections_count(), 0);
    assert!(!bundle.map.iter_boundaries()[0].1);
    assert_eq!(history.undo(&mut bundle.map), Some(Commit { view_mode: ViewMode::Adjacencies }));
    assert_eq!(bundle.map.connections_count(), 1);
    assert!(bundle.map.iter_boundaries()[0].1);
}

#[test]
fn coastal_is_calculated_once() {
    let mut bundle = bundle_of(2, 1, vec![RED, BLUE]);
    bundle.map.set_province_meta(RED, ProvinceKind::Land, "plains".to_owned(), 1);
    bundle.map.set_province_meta(BLUE, ProvinceKind::Sea, "ocean".to_owned(), 0);
    let mut history = History::new(8, &bundle.map);
    assert!(history.calculate_coastal_provinces(&mut bundle));
    assert_eq!(bundle.map.get_province(RED).coastal, Some(true));
    assert_eq!(bundle.map.get_province(BLUE).coastal, Some(true));
    assert!(!history.calculate_coastal_provinces(&mut bundle));
    assert_eq!(history.undo(&mut bundle.map), Some(Commit { view_mode: ViewMode::Color }));
    assert_eq!(bundle.map.get_province(RED).coastal, None);
}

#[test]
fn everything_is_recoloured_from_the_candidates() {
    let mut bundle = bundle_of(3, 1, vec![RED, BLUE, RED]);
    bundle.map.set_province_meta(RED, ProvinceKind::Land, "plains".to_owned(), 1);
    bundle.map.add_or_remove_connection(UOrd::new(RED, BLUE), ConnectionKind::Canal);
    let mut history = History::new(8, &bundle.map);
    // black does not count, nor does a colour twice
    let few = KindColors {
        land: vec![BLACK, GREEN, GREEN, BLACK],
        sea: vec![[1, 1, 1]],
        lake: vec![[2, 2, 2]],
        unknown: vec![BLACK, BLACK],
    };
    assert!(!history.calculate_recolor_map(&mut bundle, &few));
    assert_eq!(bundle.map.get_color_at([0, 0]), RED);
    assert_eq!(history.undo(&mut bundle.map), None);
    let enough = KindColors {
        land: vec![BLACK, GREEN, GREEN, [7, 7, 7]],
        sea: vec![[1, 1, 1]],
        lake: vec![],
        unknown: vec![BLACK, RED, [8, 8, 8]],
    };
    assert!(history.calculate_recolor_map(&mut bundle, &enough));
    let a = bundle.map.get_color_at([0, 0]);
    let b = bundle.map.get_color_at([1, 0]);
    assert_eq!(bundle.map.get_color_at([2, 0]), a);
    assert_eq!(a, GREEN);
    assert_eq!(b, RED);
    assert_eq!(bundle.map.get_province(a).kind, ProvinceKind::Land);
    assert_eq!(bundle.map.get_province(a).pixel_count, 2);
    assert_eq!(bundle.map.get_province(b).kind, ProvinceKind::Unknown);
    assert!(bundle.map.has_connection(UOrd::new(a, b)));
    assert_eq!(bundle.map.connections_count(), 1);
    assert!(bundle.map.validate_pixel_counts());
    assert!(bundle.map.iter_boundaries().iter().all(|(_, special)| *special));
    assert_eq!(history.undo(&mut bundle.map), Some(Commit { view_mode: ViewMode::Color }));
    assert_eq!(bundle.map.get_color_at([1, 0]), BLUE);
}

#[test]
fn free_colours() {
    let bundle = bundle_of(2, 1, vec![RED, BLUE]);
    assert!(!bundle.accepts_color(RED));
    assert!(!bundle.accepts_color(BLACK));
    assert!(bundle.accepts_color(GREEN));
    assert_eq!(bundle.random_color_pure(&vec![BLACK, RED, BLUE, GREEN, [1, 1, 1]]), Some(GREEN));
    assert_eq!(bundle.random_color_pure(&vec![BLACK, RED]), None);
    assert_eq!(bundle.random_color_pure(&vec![]), None);
}

#[test]
fn a_connection_through_the_history_mends_stale_flags() {
    let mut bundle = bundle_of(2, 1, vec![RED, BLUE]);
    bundle.map.add_or_remove_connection(UOrd::new(RED, BLUE), ConnectionKind::Strait);
    assert!(!bundle.map.iter_boundaries()[0].1);
    let mut history = History::new(8, &bundle.map);
    // only the kind changes, and the flag is made right all the same
    assert!(history.add_or_remove_connection(&mut bundle, UOrd::new(RED, BLUE), ConnectionKind::Canal));
    assert_eq!(bundle.map.get_connection(UOrd::new(RED, BLUE)).kind, ConnectionKind::Canal);
    assert_eq!(bundle.map.iter_boundaries().len(), 1);
    assert!(bundle.map.iter_boundaries()[0].1);
    assert!(history.add_or_remove_connection(&mut bundle, UOrd::new(BLUE, RED), ConnectionKind::Canal));
    assert!(!bundle.map.has_connection(UOrd::new(RED, BLUE)));
    assert!(!bundle.map.iter_boundaries()[0].1);
    assert_eq!(bundle.preserved_unsupported_adjacencies.len(), 0);
}
