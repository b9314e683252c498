use province_editor::bridge::{
    construct_map_data, deconstruct_map_data, deconstruct_map_data_no_preserve_ids,
    deconstruct_map_data_preserve_ids, definitions_numbered, get_color_index, write_id_changes,
    IdChange,
};
use province_editor::bundle::Bundle;
use province_editor::palette::KindColors;
use province_editor::config::Config;
use province_editor::kinds::{AdjacencyKind, ConnectionKind, DefinitionKind, ProvinceKind};
use province_editor::rows::{Adjacency, Definition};
use province_editor::uord::UOrd;

const A: [u8; 3] = [10, 0, 0];
const B: [u8; 3] = [20, 0, 0];
const C: [u8; 3] = [30, 0, 0];
const D: [u8; 3] = [40, 0, 0];

fn definition(id: u32, rgb: [u8; 3], kind: DefinitionKind, terrain: &str, continent: u16) -> Definition {
    Definition { id, rgb, kind, coastal: id % 2 == 1, terrain: terrain.to_owned(), continent }
}

fn adjacency(from: u32, to: u32, kind: AdjacencyKind, through: Option<u32>, name: &str) -> Adjacency {
    Adjacency {
        from_id: from,
        to_id: to,
        kind,
        through,
        start: None,
        stop: Some([5, 6]),
        rule_name: name.to_owned(),
        comment: String::new(),
    }
}

fn keeping() -> Config {
    let mut config = Config::default();
    config.preserve_ids = true;
    config
}

fn no_colors() -> KindColors {
    KindColors { land: vec![], sea: vec![], lake: vec![], unknown: vec![] }
}

/// A raster of the colours A A B C, with a definition table that also
/// holds a colour that is not on the raster, and three adjacencies.
fn sample(config: Config, candidates: &KindColors) -> Option<Bundle> {
    let colors = vec![A, A, B, C];
    let definitions = vec![
        definition(1, A, DefinitionKind::Land, "plains", 1),
        definition(2, B, DefinitionKind::Sea, "ocean", 0),
        definition(3, D, DefinitionKind::Lake, "lakes", 2),
        definition(4, C, DefinitionKind::Land, "hills", 2),
    ];
    assert!(definitions_numbered(&definitions));
    let adjacencies = vec![
        adjacency(1, 2, AdjacencyKind::Sea, Some(4), "strait"),
        adjacency(4, 2, AdjacencyKind::River, None, "river"),
        adjacency(1, 3, AdjacencyKind::Land, None, "to nowhere"),
        adjacency(2, 4, AdjacencyKind::Impassable, Some(3), "wall"),
        adjacency(9, 1, AdjacencyKind::Sea, None, "from nowhere"),
    ];
    construct_map_data(4, 1, &colors, definitions, adjacencies, config, candidates)
}

#[test]
fn definitions_must_be_numbered() {
    assert!(!definitions_numbered(&vec![]));
    let one = vec![definition(1, A, DefinitionKind::Land, "plains", 1)];
    assert!(definitions_numbered(&one));
    let skipped = vec![definition(2, A, DefinitionKind::Land, "plains", 1)];
    assert!(!definitions_numbered(&skipped));
    let doubled = vec![
        definition(2, A, DefinitionKind::Land, "plains", 1),
        definition(2, B, DefinitionKind::Land, "plains", 1),
    ];
    assert!(definitions_numbered(&doubled));
}

#[test]
fn colour_index() {
    let index = vec![None, Some(A), None, Some(B)];
    assert_eq!(get_color_index(&index, 0), None);
    assert_eq!(get_color_index(&index, 1), Some(A));
    assert_eq!(get_color_index(&index, 3), Some(B));
    assert_eq!(get_color_index(&index, 4), None);
    assert_eq!(get_color_index(&index, u32::MAX), None);
}

#[test]
fn map_is_made_of_raster_and_rows() {
    let bundle = sample(keeping(), &no_colors()).unwrap();
    let map = &bundle.map;
    assert_eq!(map.provinces_count(), 3);
    assert_eq!(map.preserved_id_count(), Some(4));
    let a = map.get_province(A);
    assert_eq!(a.preserved_id, Some(1));
    assert_eq!(a.kind, ProvinceKind::Land);
    assert_eq!(a.terrain, "plains");
    assert_eq!(a.continent, 1);
    assert_eq!(a.coastal, Some(true));
    assert_eq!(a.pixel_count, 2);
    assert_eq!(a.pixel_sum, [1, 0]);
    let b = map.get_province(B);
    assert_eq!((b.preserved_id, b.kind, b.coastal), (Some(2), ProvinceKind::Sea, Some(false)));
    assert_eq!(map.get_province(C).preserved_id, Some(4));
    assert!(!map.has_province(D));
    assert_eq!(map.connections_count(), 2);
    let strait = map.get_connection(UOrd::new(B, A));
    assert_eq!(strait.kind, ConnectionKind::Strait);
    assert_eq!(strait.through, Some(C));
    assert_eq!(strait.stop, Some([5, 6]));
    assert_eq!(strait.rule_name, "strait");
    let wall = map.get_connection(UOrd::new(B, C));
    assert_eq!(wall.kind, ConnectionKind::Impassable);
    assert_eq!(wall.through, None);
    assert_eq!(bundle.preserved_unsupported_adjacencies.len(), 1);
    assert_eq!(bundle.preserved_unsupported_adjacencies[0].rule_name, "river");
    assert!(map.validate_pixel_counts());
    let special: Vec<bool> = {
        let mut list = map.iter_boundaries();
        list.sort_by_key(|(pair, _)| pair.a[0].min(pair.b[0]));
        list.iter().map(|(_, s)| *s).collect()
    };
    assert_eq!(special, vec![true, true]);
}

#[test]
fn a_later_definition_of_a_colour_stands() {
    let colors = vec![A, B];
    let definitions = vec![
        definition(1, A, DefinitionKind::Land, "plains", 1),
        definition(2, B, DefinitionKind::Sea, "ocean", 0),
        definition(3, A, DefinitionKind::Lake, "lakes", 5),
    ];
    let bundle = construct_map_data(2, 1, &colors, definitions, vec![], keeping(), &no_colors()).unwrap();
    let a = bundle.map.get_province(A);
    assert_eq!((a.preserved_id, a.kind, a.continent), (Some(3), ProvinceKind::Lake, 5));
}

#[test]
fn colours_without_a_definition_are_unknown() {
    let colors = vec![A, D];
    let definitions = vec![definition(1, A, DefinitionKind::Land, "plains", 1)];
    let bundle = construct_map_data(2, 1, &colors, definitions, vec![], keeping(), &no_colors()).unwrap();
    let d = bundle.map.get_province(D);
    assert_eq!((d.preserved_id, d.kind, d.terrain.as_str()), (None, ProvinceKind::Unknown, "unknown"));
}

#[test]
fn map_is_recoloured_where_ids_are_not_kept() {
    // black does not count, nor a colour twice, nor one offered to two kinds
    let candidates = KindColors {
        land: vec![[0, 0, 0], [1, 1, 1], [9, 9, 9], [1, 1, 1], [3, 3, 3]],
        sea: vec![[9, 9, 9], [2, 2, 2]],
        lake: vec![],
        unknown: vec![],
    };
    let bundle = sample(Config::default(), &candidates).unwrap();
    let map = &bundle.map;
    assert_eq!(map.preserved_id_count(), None);
    assert_eq!(map.provinces_count(), 3);
    let a = map.get_color_at([0, 0]);
    let b = map.get_color_at([2, 0]);
    let c = map.get_color_at([3, 0]);
    assert_eq!(map.get_color_at([1, 0]), a);
    let mut land: Vec<[u8; 3]> = vec![a, c];
    land.sort();
    assert_eq!(land, vec![[1, 1, 1], [3, 3, 3]]);
    assert_eq!(b, [2, 2, 2]);
    assert_eq!(map.get_province(a).terrain, "plains");
    assert_eq!(map.get_province(a).preserved_id, None);
    assert_eq!(map.get_province(b).kind, ProvinceKind::Sea);
    assert_eq!(map.get_connection(UOrd::new(a, b)).through, Some(c));
    assert!(map.has_connection(UOrd::new(c, b)));
    assert!(map.validate_pixel_counts());
    let few = KindColors {
        land: vec![[1, 1, 1], [2, 2, 2]],
        sea: vec![],
        lake: vec![[3, 3, 3], [4, 4, 4]],
        unknown: vec![[5, 5, 5]],
    };
    assert!(sample(Config::default(), &few).is_none());
    let shared = KindColors {
        land: vec![[1, 1, 1], [2, 2, 2]],
        sea: vec![[2, 2, 2]],
        lake: vec![],
        unknown: vec![],
    };
    assert!(sample(Config::default(), &shared).is_none());
    assert!(construct_map_data(4, 2, &vec![A; 4], vec![definition(1, A, DefinitionKind::Land, "plains", 1)], vec![], keeping(), &no_colors()).is_none());
    // definitions that are not numbered as a table numbers them give no map
    assert!(construct_map_data(1, 1, &vec![A], vec![definition(2, A, DefinitionKind::Land, "plains", 1)], vec![], keeping(), &no_colors()).is_none());
    assert!(construct_map_data(1, 1, &vec![A], vec![], vec![], keeping(), &no_colors()).is_none());
}

#[test]
fn rows_of_a_map_without_kept_ids() {
    let mut bundle = sample(keeping(), &no_colors()).unwrap();
    bundle.config.preserve_ids = false;
    let data = deconstruct_map_data(&bundle).unwrap();
    assert!(data.id_changes.is_none());
    let rows: Vec<(u32, [u8; 3], DefinitionKind, u16, &str, bool)> = data
        .definitions
        .iter()
        .map(|d| (d.id, d.rgb, d.kind, d.continent, d.terrain.as_str(), d.coastal))
        .collect();
    assert_eq!(
        rows,
        vec![
            (1, A, DefinitionKind::Land, 1, "plains", true),
            (2, C, DefinitionKind::Land, 2, "hills", false),
            (3, B, DefinitionKind::Sea, 0, "ocean", false),
        ]
    );
    let links: Vec<(u32, u32, AdjacencyKind, Option<u32>, &str)> = data
        .adjacencies
        .iter()
        .map(|a| (a.from_id, a.to_id, a.kind, a.through, a.rule_name.as_str()))
        .collect();
    assert_eq!(
        links,
        vec![(1, 3, AdjacencyKind::Sea, Some(2), "strait"), (2, 3, AdjacencyKind::Impassable, None, "wall")]
    );
    assert_eq!(data.adjacencies[0].stop, Some([5, 6]));
}

#[test]
fn rows_of_a_map_with_kept_ids() {
    let bundle = sample(keeping(), &no_colors()).unwrap();
    let data = deconstruct_map_data_preserve_ids(&bundle).unwrap();
    // A and B keep the ids 1 and 2; C had the id 4 of four, there are three
    // rows now, so it takes the lowest number that is left
    let rows: Vec<(u32, [u8; 3])> = data.definitions.iter().map(|d| (d.id, d.rgb)).collect();
    assert_eq!(rows, vec![(1, A), (2, B), (3, C)]);
    assert_eq!(
        data.id_changes,
        Some(vec![IdChange::Reassigned(4, 3), IdChange::DeletedRange(4, 4)])
    );
    let links: Vec<(u32, u32, AdjacencyKind, Option<u32>, &str)> = data
        .adjacencies
        .iter()
        .map(|a| (a.from_id, a.to_id, a.kind, a.through, a.rule_name.as_str()))
        .collect();
    assert_eq!(
        links,
        vec![
            (4, 2, AdjacencyKind::River, None, "river"),
            (1, 2, AdjacencyKind::Sea, Some(3), "strait"),
            (2, 3, AdjacencyKind::Impassable, None, "wall"),
        ]
    );
}

#[test]
fn new_provinces_get_the_numbers_that_are_left() {
    let mut bundle = sample(keeping(), &no_colors()).unwrap();
    bundle.map.put_pixel([0, 0], D);
    bundle.map.set_province_meta(D, ProvinceKind::Lake, "lakes".to_owned(), 0);
    bundle.map.set_province_attributes(D, {
        let mut d = bundle.map.get_province(D).clone();
        d.coastal = Some(false);
        d
    });
    let data = deconstruct_map_data(&bundle).unwrap();
    let rows: Vec<(u32, [u8; 3])> = data.definitions.iter().map(|d| (d.id, d.rgb)).collect();
    assert_eq!(rows, vec![(1, A), (2, B), (3, D), (4, C)]);
    assert_eq!(data.id_changes, Some(vec![IdChange::AssignedNew(3)]));
    bundle.map.put_pixel([1, 0], D);
    let data = deconstruct_map_data(&bundle).unwrap();
    let rows: Vec<(u32, [u8; 3])> = data.definitions.iter().map(|d| (d.id, d.rgb)).collect();
    assert_eq!(rows, vec![(1, C), (2, B), (3, D)]);
    assert_eq!(
        data.id_changes,
        Some(vec![IdChange::Reassigned(4, 1), IdChange::AssignedNew(3), IdChange::DeletedRange(4, 4)])
    );
}

#[test]
fn more_provinces_than_loaded_make_ids() {
    let colors = vec![A, B];
    let definitions = vec![definition(1, A, DefinitionKind::Land, "plains", 1)];
    let mut bundle = construct_map_data(2, 1, &colors, definitions, vec![], keeping(), &no_colors()).unwrap();
    bundle.map.set_province_meta(B, ProvinceKind::Sea, "ocean".to_owned(), 0);
    let mut b = bundle.map.get_province(B).clone();
    b.coastal = Some(true);
    bundle.map.set_province_attributes(B, b);
    let data = deconstruct_map_data_preserve_ids(&bundle).unwrap();
    assert_eq!(
        data.id_changes,
        Some(vec![IdChange::AssignedNew(2), IdChange::CreatedRange(2, 2)])
    );
    let bundle = construct_map_data(1, 1, &vec![A], vec![definition(1, A, DefinitionKind::Land, "plains", 1)], vec![], keeping(), &no_colors()).unwrap();
    assert_eq!(deconstruct_map_data_preserve_ids(&bundle).unwrap().id_changes, None);
}

#[test]
fn provinces_that_cannot_be_rows_are_refused() {
    let colors = vec![A, D];
    let definitions = vec![definition(1, A, DefinitionKind::Land, "plains", 1)];
    let mut bundle = construct_map_data(2, 1, &colors, definitions, vec![], keeping(), &no_colors()).unwrap();
    assert_eq!(deconstruct_map_data_preserve_ids(&bundle).err(), Some("Province exists with unknown type"));
    assert_eq!(deconstruct_map_data_no_preserve_ids(&bundle).err(), Some("Province exists with unknown type"));
    bundle.map.set_province_meta(D, ProvinceKind::Land, "plains".to_owned(), 1);
    assert_eq!(deconstruct_map_data(&bundle).err(), Some("Province exists with unknown coastal status"));
    let mut d = bundle.map.get_province(D).clone();
    d.coastal = Some(true);
    d.terrain = "unknown".to_owned();
    bundle.map.set_province_attributes(D, d);
    assert_eq!(deconstruct_map_data(&bundle).err(), Some("Province exists with unknown terrain"));
    let mut a = bundle.map.get_province(A).clone();
    a.terrain = "unknown".to_owned();
    bundle.map.set_province_attributes(A, a);
    let mut d = bundle.map.get_province(D).clone();
    d.terrain = "plains".to_owned();
    bundle.map.set_province_attributes(D, d);
    assert_eq!(deconstruct_map_data(&bundle).err(), Some("province data exists with unknown terrain"));
    let mut a = bundle.map.get_province(A).clone();
    a.coastal = None;
    bundle.map.set_province_attributes(A, a);
    assert_eq!(deconstruct_map_data(&bundle).err(), Some("province data exists with unknown coastal status"));
    bundle.map.set_province_meta(A, ProvinceKind::Unknown, "plains".to_owned(), 1);
    assert_eq!(deconstruct_map_data(&bundle).err(), Some("province data exists with 'unknown' type"));
}

#[test]
fn id_changes_are_told() {
    assert_eq!(IdChange::Reassigned(4, 7).to_string(), "Reassigned ID 4 to 7");
    assert_eq!(IdChange::AssignedNew(12).to_string(), "Assigned ID 12 to new province");
    assert_eq!(IdChange::CreatedRange(3, 10).to_string(), "Created IDs 3 through 10");
    assert_eq!(IdChange::DeletedRange(100, 4294967295).to_string(), "Deleted IDs 100 through 4294967295");
    let lines = write_id_changes("2024-01-02 03:04:05", &vec![IdChange::Reassigned(4, 7), IdChange::AssignedNew(0)]);
    assert_eq!(
        lines,
        vec!["ID Changes 2024-01-02 03:04:05", "- Reassigned ID 4 to 7", "- Assigned ID 0 to new province"]
    );
}

#[test]
fn saved_rows_load_to_the_same_map() {
    let bundle = sample(keeping(), &no_colors()).unwrap();
    let data = deconstruct_map_data(&bundle).unwrap();
    let colors = vec![A, A, B, C];
    let again = construct_map_data(4, 1, &colors, data.definitions, data.adjacencies, keeping(), &no_colors()).unwrap();
    assert_eq!(again.map.provinces_count(), 3);
    assert_eq!(again.map.get_province(C).preserved_id, Some(3));
    assert_eq!(again.map.get_province(C).terrain, "hills");
    assert_eq!(again.map.get_connection(UOrd::new(A, B)).through, Some(C));
    assert_eq!(again.preserved_unsupported_adjacencies.len(), 0);
    assert_eq!(deconstruct_map_data(&again).unwrap().id_changes, None);
}
