use province_editor::bundle::{Bundle, ColorKeyable, Shade};
use province_editor::color::{color_key, key_color, same_color, stringify_color};
use province_editor::command;
use province_editor::command::{commands, controls, entry, help, run, select, Command, Selection};
use province_editor::config::{add_default_terrains, default_terrains, named, Config, ExtraWarnings};
use province_editor::console::{ActiveConsole, Console, ConsoleAction, ConsoleMessage, ConsoleColor};
use province_editor::extents::{same_pos, Extents};
use province_editor::kinds::{
    AdjacencyKind, BrushMask, ConnectionKind, DefinitionKind, ParseError, ProvinceKind, ViewMode,
};
use province_editor::province::{ConnectionData, ProvinceData};
use province_editor::province_map::ProvinceMap;
use province_editor::records::{
    cell, matches_frame, parse_num_field, parse_string_field, parse_u16_field, parse_u32_field,
    parse_u8_field, strip_frame, CsvError, CsvParseError, RawRecord,
};
use province_editor::rows::{parse_field, parse_record, ParseCsv, ParseCsvField, ParseCsvRecord, Parsed,
    
    insert_adjacency, insert_definition, parse_adjacency_kind_field, parse_bool_field,
    parse_definition_kind_field, stringify_maybe_num, stringify_maybe_pos, Adjacency, Definition,
};
use province_editor::text::{pad_left, pad_right, string_of};
use province_editor::bridge::{is_river_mark, process_and_clear_rivers_image};
use province_editor::tool::{set_view_mode, unknown_terrains, ToolSettings, ViewChange};
use province_editor::uord::{pair_key_halves, pair_key_of, UOrd};
use province_editor::util::XYIter;
use std::collections::HashSet;

#[test]
fn colours_and_keys() {
    assert_eq!(color_key([0, 0, 0]), 0);
    assert_eq!(color_key([1, 2, 3]), 0x010203);
    assert_eq!(color_key([255, 255, 255]), 0xffffff);
    assert_eq!(key_color(0x010203), [1, 2, 3]);
    assert_eq!(key_color(0xff00fe), [255, 0, 254]);
    assert!(same_color([1, 2, 3], [1, 2, 3]));
    assert!(!same_color([1, 2, 3], [1, 2, 4]));
    assert!(!same_color([1, 2, 3], [3, 2, 1]));
    assert_eq!(stringify_color([0, 0, 0]), "(0, 0, 0)");
    assert_eq!(stringify_color([7, 42, 255]), "(7, 42, 255)");
    assert_eq!(stringify_color([10, 100, 109]), "(10, 100, 109)");
}

#[test]
fn extents_join_and_hold() {
    let a = Extents::new([5, 6], [1, 2]);
    assert_eq!((a.upper, a.lower), ([5, 6], [1, 2]));
    let b = Extents::new_point([7, 0]);
    assert_eq!((b.upper, b.lower), ([7, 0], [7, 0]));
    let j = a.join(b);
    assert_eq!((j.upper, j.lower), ([7, 6], [1, 0]));
    let j = b.join(a);
    assert_eq!((j.upper, j.lower), ([7, 6], [1, 0]));
    let j = a.join_point([0, 9]);
    assert_eq!((j.upper, j.lower), ([5, 9], [0, 2]));
    assert!(a.join(a).same(a));
    assert!(!a.same(b));
    assert_eq!(a.to_offset(), [1, 2]);
    assert_eq!(a.to_offset_size(), ([1, 2], [5, 5]));
    assert_eq!(b.to_offset_size(), ([7, 0], [1, 1]));
    assert!(a.contains([1, 2]) && a.contains([5, 6]) && a.contains([3, 4]));
    assert!(!a.contains([0, 2]) && !a.contains([1, 7]) && !a.contains([6, 6]) && !a.contains([5, 1]));
    let e = Extents::new_entire(10, 20);
    assert_eq!((e.lower, e.upper), ([0, 0], [9, 19]));
    let e = Extents::from_clamped([3, 50], [12, 60], [10, 20]);
    assert_eq!((e.lower, e.upper), ([3, 19], [9, 19]));
    assert!(same_pos([1, 2], [1, 2]) && !same_pos([1, 2], [2, 1]));
}

#[test]
fn unordered_pairs() {
    let p = UOrd::new(5u32, 3u32);
    assert!(p.contains(5) && p.contains(3) && !p.contains(4));
    assert_eq!(p.into_tuple(), (3, 5));
    assert_eq!(p.as_tuple(), (&3, &5));
    assert_eq!(p.into_tuple_unordered(), (5, 3));
    assert_eq!(p.replace(5, 9).into_tuple_unordered(), (9, 3));
    assert_eq!(UOrd::new(5u32, 5).replace(5, 1).into_tuple_unordered(), (1, 1));
    assert!(p.is_distinct() && !UOrd::new(2u32, 2).is_distinct());
    assert!(p.equals(&UOrd::new(3, 5)) && !p.equals(&UOrd::new(3, 4)));
    assert!(p == UOrd::new(3, 5));
    assert!(p != UOrd::new(5, 5));
    assert_eq!(p.map(|x| x * 2).into_tuple(), (6, 10));
    let c = UOrd::new([2, 0, 0], [1, 255, 255]);
    assert_eq!(c.into_tuple(), ([1, 255, 255], [2, 0, 0]));
    assert_eq!(c.as_tuple(), (&[1, 255, 255], &[2, 0, 0]));
    assert!(c.contains([2, 0, 0]) && !c.contains([0, 0, 2]));
    assert!(c.equals(&UOrd::new([1, 255, 255], [2, 0, 0])));
    assert_eq!(c.replace([2, 0, 0], [0, 0, 1]).into_tuple(), ([0, 0, 1], [1, 255, 255]));
    assert_eq!(c.key(), 0x01ffff_020000);
    assert_eq!(UOrd::new([1, 255, 255], [2, 0, 0]).key(), c.key());
    assert_eq!(pair_key_of(0x020000, 0x01ffff), 0x01ffff_020000);
    assert_eq!(pair_key_halves(0x01ffff_020000), (0x01ffff, 0x020000));
    let q = UOrd::new([3u32, 1], [2, 9]);
    assert_eq!(q.into_tuple(), ([2, 9], [3, 1]));
    assert_eq!(UOrd::new([2u32, 9], [2, 1]).into_tuple(), ([2, 1], [2, 9]));
    assert!(q.contains([2, 9]) && q.is_distinct() && q.equals(&UOrd::new([2, 9], [3, 1])));
    assert_eq!(q.replace([2, 9], [0, 0]).as_tuple(), (&[0, 0], &[3, 1]));
}

#[test]
fn kinds_are_named() {
    assert_eq!(DefinitionKind::Land.to_str(), "land");
    assert_eq!(DefinitionKind::Sea.to_str(), "sea");
    assert_eq!(DefinitionKind::Lake.to_str(), "lake");
    assert_eq!(DefinitionKind::parse("LAND"), Ok(DefinitionKind::Land));
    assert_eq!(DefinitionKind::parse("Sea"), Ok(DefinitionKind::Sea));
    assert_eq!(DefinitionKind::parse("lake"), Ok(DefinitionKind::Lake));
    assert_eq!(DefinitionKind::parse("lakes"), Err(ParseError::InvalidDefinitionKind));
    assert_eq!(DefinitionKind::parse(""), Err(ParseError::InvalidDefinitionKind));
    assert_eq!(AdjacencyKind::Land.to_str(), "");
    assert_eq!(AdjacencyKind::River.to_str(), "river");
    assert_eq!(AdjacencyKind::LargeRiver.to_str(), "large_river");
    assert_eq!(AdjacencyKind::Sea.to_str(), "sea");
    assert_eq!(AdjacencyKind::Impassable.to_str(), "impassable");
    assert_eq!(AdjacencyKind::parse(""), Ok(AdjacencyKind::Land));
    assert_eq!(AdjacencyKind::parse("RIVER"), Ok(AdjacencyKind::River));
    assert_eq!(AdjacencyKind::parse("Large_River"), Ok(AdjacencyKind::LargeRiver));
    assert_eq!(AdjacencyKind::parse("sea"), Ok(AdjacencyKind::Sea));
    assert_eq!(AdjacencyKind::parse("impassable"), Ok(AdjacencyKind::Impassable));
    assert_eq!(AdjacencyKind::parse("land"), Err(ParseError::InvalidAdjacencyKind));
    assert_eq!(ProvinceKind::Land.to_str(), "land");
    assert_eq!(ProvinceKind::Unknown.to_str(), "unknown");
    assert_eq!(ProvinceKind::parse("unknown"), Ok(ProvinceKind::Unknown));
    assert_eq!(ProvinceKind::parse("sea"), Ok(ProvinceKind::Sea));
    assert_eq!(ProvinceKind::parse("Sea"), Err(ParseError::InvalidDefinitionKind));
    assert_eq!(ProvinceKind::from_definition_kind(DefinitionKind::Lake), ProvinceKind::Lake);
    assert_eq!(ProvinceKind::Lake.to_definition_kind(), Some(DefinitionKind::Lake));
    assert_eq!(ProvinceKind::Unknown.to_definition_kind(), None);
    assert_eq!(ConnectionKind::Strait.to_str(), "strait/sea");
    assert_eq!(ConnectionKind::Canal.to_str(), "canal/land");
    assert_eq!(ConnectionKind::Impassable.to_str(), "impassable");
    assert_eq!(ConnectionKind::from_adjacency_kind(AdjacencyKind::Land), Some(ConnectionKind::Canal));
    assert_eq!(ConnectionKind::from_adjacency_kind(AdjacencyKind::Sea), Some(ConnectionKind::Strait));
    assert_eq!(ConnectionKind::from_adjacency_kind(AdjacencyKind::River), None);
    assert_eq!(ConnectionKind::from_adjacency_kind(AdjacencyKind::LargeRiver), None);
    assert_eq!(ConnectionKind::Strait.into_adjacency_kind(), AdjacencyKind::Sea);
    assert_eq!(ConnectionKind::Canal.into_adjacency_kind(), AdjacencyKind::Land);
    assert_eq!(ConnectionKind::Impassable.into_adjacency_kind(), AdjacencyKind::Impassable);
    assert_eq!(BrushMask::LandLakes.to_str(), "land + lakes");
    assert_eq!(BrushMask::Sea.to_str(), "sea");
    assert_eq!(ViewMode::default(), ViewMode::Color);
}

#[test]
fn kinds_have_rules_and_colours() {
    assert!(!ProvinceKind::Land.valid_continent_id(0));
    assert!(ProvinceKind::Land.valid_continent_id(1));
    assert!(ProvinceKind::Sea.valid_continent_id(0));
    assert!(!ProvinceKind::Sea.valid_continent_id(1));
    assert!(ProvinceKind::Lake.valid_continent_id(0) && ProvinceKind::Lake.valid_continent_id(9));
    assert!(ProvinceKind::Unknown.valid_continent_id(0));
    assert_eq!(ProvinceKind::Land.correct_continent_id(0), 1);
    assert_eq!(ProvinceKind::Land.correct_continent_id(7), 7);
    assert_eq!(ProvinceKind::Sea.correct_continent_id(7), 0);
    assert_eq!(ProvinceKind::Lake.correct_continent_id(7), 7);
    assert_eq!(ProvinceKind::Unknown.correct_continent_id(0), 0);
    assert_eq!(ProvinceKind::Unknown.default_terrain(), "unknown");
    assert_eq!(ProvinceKind::Land.default_terrain(), "plains");
    assert_eq!(ProvinceKind::Sea.default_terrain(), "ocean");
    assert_eq!(ProvinceKind::Lake.default_terrain(), "lakes");
    assert_eq!(ProvinceKind::Land.color(), [0x0a, 0xae, 0x3d]);
    assert_eq!(ProvinceKind::Sea.color(), [0x00, 0x4c, 0x9e]);
    assert_eq!(ProvinceKind::Lake.color(), [0x24, 0xab, 0xff]);
    assert_eq!(ProvinceKind::Unknown.color(), [0x22, 0x22, 0x22]);
    assert_eq!(ProvinceKind::Land.color_mapgen(), Some([150, 68, 192]));
    assert_eq!(ProvinceKind::Sea.color_mapgen(), Some([5, 20, 18]));
    assert_eq!(ProvinceKind::Lake.color_mapgen(), Some([80, 240, 120]));
    assert_eq!(ProvinceKind::Unknown.color_mapgen(), None);
    assert_eq!(ProvinceKind::Land.color_coastal(Some(false)), [0x00, 0x33, 0x11]);
    assert_eq!(ProvinceKind::Land.color_coastal(Some(true)), [0x33, 0x99, 0x55]);
    assert_eq!(ProvinceKind::Sea.color_coastal(Some(false)), [0x00, 0x11, 0x33]);
    assert_eq!(ProvinceKind::Sea.color_coastal(Some(true)), [0x33, 0x55, 0x99]);
    assert_eq!(ProvinceKind::Lake.color_coastal(Some(false)), [0x00, 0x33, 0x33]);
    assert_eq!(ProvinceKind::Lake.color_coastal(Some(true)), [0x33, 0x99, 0x99]);
    assert_eq!(ProvinceKind::Land.color_coastal(None), [0x22, 0x22, 0x22]);
    assert_eq!(ProvinceKind::Unknown.color_coastal(Some(true)), [0x22, 0x22, 0x22]);
    assert!(BrushMask::LandLakes.includes(ProvinceKind::Land));
    assert!(BrushMask::LandLakes.includes(ProvinceKind::Lake));
    assert!(!BrushMask::LandLakes.includes(ProvinceKind::Sea));
    assert!(BrushMask::LandLakes.includes(ProvinceKind::Unknown));
    assert!(BrushMask::Sea.includes(ProvinceKind::Sea));
    assert!(!BrushMask::Sea.includes(ProvinceKind::Land));
    assert!(!BrushMask::Sea.includes(ProvinceKind::Lake));
    assert!(BrushMask::Sea.includes(ProvinceKind::Unknown));
}

#[test]
fn provinces_and_rows() {
    let d = ProvinceData::default();
    assert_eq!((d.preserved_id, d.kind, d.terrain.as_str(), d.continent, d.coastal), (None, ProvinceKind::Unknown, "unknown", 0, None));
    assert_eq!((d.pixel_count, d.pixel_sum), (0, [0, 0]));
    let row = Definition { id: 7, rgb: [1, 2, 3], kind: DefinitionKind::Sea, coastal: true, terrain: "ocean".to_owned(), continent: 0 };
    let mut config = Config::default();
    let p = ProvinceData::from_definition_config(row.clone(), &config);
    assert_eq!((p.preserved_id, p.kind, p.terrain.as_str(), p.coastal), (None, ProvinceKind::Sea, "ocean", Some(true)));
    config.preserve_ids = true;
    let mut p = ProvinceData::from_definition_config(row.clone(), &config);
    assert_eq!(p.preserved_id, Some(7));
    assert_eq!(p.to_definition([1, 2, 3]), Ok(row.clone()));
    let other = p.to_definition_with_id([9, 9, 9], 11).unwrap();
    assert_eq!((other.id, other.rgb), (11, [9, 9, 9]));
    p.set_meta(ProvinceKind::Land, "hills".to_owned(), 4);
    assert_eq!((p.kind, p.terrain.as_str(), p.continent, p.preserved_id), (ProvinceKind::Land, "hills", 4, Some(7)));
    p.coastal = None;
    assert_eq!(p.to_definition([1, 2, 3]), Err("province data exists with unknown coastal status"));
    let c = ConnectionData::new(ConnectionKind::Canal);
    assert_eq!((c.kind, c.through, c.start, c.stop), (ConnectionKind::Canal, None, None, None));
    assert_eq!((c.rule_name.as_str(), c.comment.as_str()), ("", ""));
    let a = Adjacency { from_id: 1, to_id: 2, kind: AdjacencyKind::Sea, through: Some(3), start: Some([1, 2]), stop: None, rule_name: "r".to_owned(), comment: "c".to_owned() };
    let c = ConnectionData::from_adjacency(a.clone(), |id| [id as u8, 0, 0]).unwrap();
    assert_eq!((c.kind, c.through, c.start, c.stop), (ConnectionKind::Strait, Some([3, 0, 0]), Some([1, 2]), None));
    assert_eq!((c.rule_name.as_str(), c.comment.as_str()), ("r", "c"));
    let mut river = a.clone();
    river.kind = AdjacencyKind::LargeRiver;
    assert!(ConnectionData::from_adjacency(river, |_| [0, 0, 0]).is_none());
    let back = c.to_adjacency(UOrd::new(9, 4), |color| color[0] as u32 + 100);
    assert_eq!((back.from_id, back.to_id, back.kind, back.through), (4, 9, AdjacencyKind::Sea, Some(103)));
    assert_eq!((back.start, back.stop, back.rule_name.as_str(), back.comment.as_str()), (Some([1, 2]), None, "r", "c"));
}

fn record(fields: &[&str]) -> RawRecord {
    RawRecord { fields: fields.iter().map(|s| s.to_string()).collect(), position: None }
}

#[test]
fn cells_are_read() {
    let r = record(&["a", "b"]);
    assert_eq!(cell(&r, 0), Some("a"));
    assert_eq!(cell(&r, 1), Some("b"));
    assert_eq!(cell(&r, 2), None);
    assert_eq!(parse_u32_field(Some("42")).ok(), Some(42));
    assert_eq!(parse_u32_field(Some(" 42\t")).ok(), Some(42));
    assert_eq!(parse_u32_field(Some("+42")).ok(), Some(42));
    assert_eq!(parse_u32_field(Some("0042")).ok(), Some(42));
    assert_eq!(parse_u32_field(Some("4294967295")).ok(), Some(4294967295));
    assert!(matches!(parse_u32_field(Some("4294967296")), Err(CsvParseError::ParsingFieldFailed("u32", ParseError::ParseIntError))));
    assert!(matches!(parse_u32_field(Some("99999999999999999999999")), Err(CsvParseError::ParsingFieldFailed(..))));
    assert!(matches!(parse_u32_field(Some("-1")), Err(CsvParseError::ParsingFieldFailed(..))));
    assert!(matches!(parse_u32_field(Some("")), Err(CsvParseError::ParsingFieldFailed(..))));
    assert!(matches!(parse_u32_field(Some("+")), Err(CsvParseError::ParsingFieldFailed(..))));
    assert!(matches!(parse_u32_field(Some("4 2")), Err(CsvParseError::ParsingFieldFailed(..))));
    assert!(matches!(parse_u32_field(Some("4a")), Err(CsvParseError::ParsingFieldFailed(..))));
    assert!(matches!(parse_u32_field(None), Err(CsvParseError::IncorrectColumnCount("u32"))));
    assert_eq!(parse_u8_field(Some("255")).ok(), Some(255));
    assert!(matches!(parse_u8_field(Some("256")), Err(CsvParseError::ParsingFieldFailed("u8", _))));
    assert!(matches!(parse_u8_field(None), Err(CsvParseError::IncorrectColumnCount("u8"))));
    assert_eq!(parse_u16_field(Some("65535")).ok(), Some(65535));
    assert!(matches!(parse_u16_field(Some("65536")), Err(CsvParseError::ParsingFieldFailed("u16", _))));
    assert_eq!(parse_num_field(Some("")).ok(), Some(None));
    assert_eq!(parse_num_field(Some(" ")).ok(), Some(None));
    assert_eq!(parse_num_field(Some("-1")).ok(), Some(None));
    assert_eq!(parse_num_field(Some("17")).ok(), Some(Some(17)));
    assert!(matches!(parse_num_field(Some("-2")), Err(CsvParseError::ParsingFieldFailed("Num", _))));
    assert!(matches!(parse_num_field(None), Err(CsvParseError::IncorrectColumnCount("Num"))));
    assert_eq!(parse_string_field(Some(" x ")).ok(), Some(" x ".to_owned()));
    assert!(matches!(parse_string_field(None), Err(CsvParseError::IncorrectColumnCount("String"))));
    assert_eq!(parse_bool_field(Some("0")).ok(), Some(false));
    assert_eq!(parse_bool_field(Some("1")).ok(), Some(true));
    assert_eq!(parse_bool_field(Some("true")).ok(), Some(true));
    assert_eq!(parse_bool_field(Some("FALSE")).ok(), Some(false));
    assert_eq!(parse_bool_field(Some(" True ")).ok(), Some(true));
    assert!(matches!(parse_bool_field(Some("yes")), Err(CsvParseError::ParsingFieldFailed("bool", ParseError::ParseBoolError))));
    assert!(matches!(parse_bool_field(None), Err(CsvParseError::IncorrectColumnCount("bool"))));
    assert_eq!(parse_definition_kind_field(Some(" Lake ")).ok(), Some(DefinitionKind::Lake));
    assert!(matches!(parse_definition_kind_field(Some("x")), Err(CsvParseError::ParsingFieldFailed("DefinitionKind", ParseError::InvalidDefinitionKind))));
    assert!(matches!(parse_definition_kind_field(None), Err(CsvParseError::IncorrectColumnCount("DefinitionKind"))));
    assert_eq!(parse_adjacency_kind_field(Some(" ")).ok(), Some(AdjacencyKind::Land));
    assert!(matches!(parse_adjacency_kind_field(Some("x")), Err(CsvParseError::ParsingFieldFailed("AdjacencyKind", ParseError::InvalidAdjacencyKind))));
    assert_eq!(stringify_maybe_num(None), "-1");
    assert_eq!(stringify_maybe_num(Some(0)), "0");
    assert_eq!(stringify_maybe_num(Some(4294967295)), "4294967295");
    assert_eq!(stringify_maybe_pos(None), "-1;-1");
    assert_eq!(stringify_maybe_pos(Some([12, 345])), "12;345");
}

#[test]
fn frames_are_taken_off() {
    let header = vec!["From", "To"];
    let footer = vec!["-1", "-1"];
    assert!(matches_frame(&record(&["FROM", "to", "more"]), &header));
    assert!(matches_frame(&record(&["from"]), &header));
    assert!(matches_frame(&record(&[]), &header));
    assert!(!matches_frame(&record(&["from", "t"]), &header));
    let records = vec![record(&["from", "TO"]), record(&["1", "2"]), record(&["-1", "-1"])];
    let body = strip_frame(records.clone(), Some(&header), Some(&footer)).ok().unwrap();
    assert_eq!(body.len(), 1);
    assert_eq!(body[0].fields, vec!["1", "2"]);
    let body = strip_frame(records.clone(), Some(&header), None).ok().unwrap();
    assert_eq!(body.len(), 2);
    let body = strip_frame(records.clone(), None, None).ok().unwrap();
    assert_eq!(body.len(), 3);
    assert!(matches!(strip_frame(records.clone(), Some(&footer), None), Err(CsvError::InvalidHeaderRecord(_))));
    assert!(matches!(strip_frame(records.clone(), Some(&header), Some(&header)), Err(CsvError::InvalidFooterRecord(_))));
    assert_eq!(strip_frame(vec![], Some(&header), Some(&footer)).ok().unwrap().len(), 0);
    // a table of one record: that is its header, and it has no footer
    assert_eq!(strip_frame(vec![record(&["from", "to"])], Some(&header), Some(&footer)).ok().unwrap().len(), 0);
}

fn row(kind: DefinitionKind, continent: u16, terrain: &str) -> Definition {
    Definition { id: 0, rgb: [0, 0, 0], kind, coastal: false, terrain: terrain.to_owned(), continent }
}

#[test]
fn rows_are_ordered() {
    assert!(row(DefinitionKind::Land, 9, "z").le(&row(DefinitionKind::Sea, 0, "a")));
    assert!(!row(DefinitionKind::Lake, 0, "a").le(&row(DefinitionKind::Sea, 9, "z")));
    assert!(row(DefinitionKind::Sea, 1, "z").le(&row(DefinitionKind::Sea, 2, "a")));
    assert!(row(DefinitionKind::Sea, 1, "abc").le(&row(DefinitionKind::Sea, 1, "abd")));
    assert!(row(DefinitionKind::Sea, 1, "ab").le(&row(DefinitionKind::Sea, 1, "abc")));
    assert!(!row(DefinitionKind::Sea, 1, "b").le(&row(DefinitionKind::Sea, 1, "abc")));
    assert!(row(DefinitionKind::Sea, 1, "abc").le(&row(DefinitionKind::Sea, 1, "abc")));
    let mut sorted: Vec<Definition> = Vec::new();
    for d in [
        row(DefinitionKind::Sea, 1, "b"),
        row(DefinitionKind::Land, 5, "x"),
        row(DefinitionKind::Sea, 1, "a"),
        row(DefinitionKind::Land, 2, "y"),
        row(DefinitionKind::Lake, 0, ""),
    ] {
        insert_definition(&mut sorted, d);
    }
    let order: Vec<(DefinitionKind, u16, &str)> = sorted.iter().map(|d| (d.kind, d.continent, d.terrain.as_str())).collect();
    assert_eq!(
        order,
        vec![
            (DefinitionKind::Land, 2, "y"),
            (DefinitionKind::Land, 5, "x"),
            (DefinitionKind::Sea, 1, "a"),
            (DefinitionKind::Sea, 1, "b"),
            (DefinitionKind::Lake, 0, ""),
        ]
    );
    let adjacency = |name: &str, comment: &str, kind: AdjacencyKind| Adjacency {
        from_id: 0, to_id: 0, kind, through: None, start: None, stop: None,
        rule_name: name.to_owned(), comment: comment.to_owned(),
    };
    let mut sorted: Vec<Adjacency> = Vec::new();
    for a in [
        adjacency("b", "", AdjacencyKind::Land),
        adjacency("a", "z", AdjacencyKind::Sea),
        adjacency("a", "z", AdjacencyKind::Land),
        adjacency("", "q", AdjacencyKind::Impassable),
        adjacency("a", "y", AdjacencyKind::Impassable),
    ] {
        insert_adjacency(&mut sorted, a);
    }
    let order: Vec<(&str, &str, AdjacencyKind)> = sorted.iter().map(|a| (a.rule_name.as_str(), a.comment.as_str(), a.kind)).collect();
    assert_eq!(
        order,
        vec![
            ("", "q", AdjacencyKind::Impassable),
            ("a", "y", AdjacencyKind::Impassable),
            ("a", "z", AdjacencyKind::Land),
            ("a", "z", AdjacencyKind::Sea),
            ("b", "", AdjacencyKind::Land),
        ]
    );
}

#[test]
fn settings_and_terrains() {
    let config = Config::default();
    assert_eq!(config.max_undo_states, 24);
    assert!(!config.preserve_ids && config.change_view_mode_on_undo && !config.generate_coastal_on_save);
    assert_eq!(config.terrains.len(), 11);
    assert_eq!(config.terrain_color("plains"), Some([0xff, 0x81, 0x42]));
    assert_eq!(config.terrain_kind("plains"), Some(ProvinceKind::Land));
    assert_eq!(config.terrain_kind("lakes"), Some(ProvinceKind::Lake));
    assert_eq!(config.terrain_kind("ocean"), Some(ProvinceKind::Sea));
    assert_eq!(config.terrain_kind("unknown"), Some(ProvinceKind::Unknown));
    assert_eq!(config.terrain_color("urban"), Some([0x9b, 0x00, 0xff]));
    assert_eq!(config.terrain_color("Plains"), None);
    assert_eq!(config.terrain_kind("swamp"), None);
    assert!(config.has_terrain("marsh") && !config.has_terrain(""));
    assert_eq!(config.cycle_terrains(None), "unknown");
    assert_eq!(config.cycle_terrains(Some("unknown")), "plains");
    assert_eq!(config.cycle_terrains(Some("ocean")), "urban");
    assert_eq!(config.cycle_terrains(Some("urban")), "unknown");
    assert_eq!(config.cycle_terrains(Some("swamp")), "unknown");
    let w = ExtraWarnings::default();
    assert!(w.enabled && w.lone_pixels && w.few_shared_borders);
    assert_eq!(w.few_shared_borders_threshold, 3);
    assert_eq!(config.extra_warnings.few_shared_borders_threshold, 4);
    let mut terrains = vec![
        named([1, 1, 1], "swamp", ProvinceKind::Land),
        named([2, 2, 2], "unknown", ProvinceKind::Land),
        named([3, 3, 3], "ocean", ProvinceKind::Lake),
    ];
    add_default_terrains(&mut terrains);
    let mut config = Config::default();
    config.terrains = terrains;
    assert_eq!(config.terrains.len(), 12);
    assert_eq!(config.terrain_color("swamp"), Some([1, 1, 1]));
    assert_eq!(config.terrain_color("unknown"), Some([0, 0, 0]));
    assert_eq!(config.terrain_kind("unknown"), Some(ProvinceKind::Unknown));
    assert_eq!(config.terrain_color("ocean"), Some([3, 3, 3]));
    assert_eq!(config.terrain_kind("ocean"), Some(ProvinceKind::Lake));
    assert_eq!(config.terrain_color("hills"), Some([0xf8, 0xff, 0x99]));
    assert_eq!(default_terrains().len(), 11);
}

#[test]
fn positions_of_a_box() {
    let mut it = XYIter::new(2..4, 5..7);
    assert_eq!((it.width(), it.height(), it.area(), it.len()), (2, 2, 4, 4));
    let mut seen = Vec::new();
    while let Some(p) = it.next() {
        seen.push(p);
    }
    assert_eq!(seen, vec![[2, 5], [3, 5], [2, 6], [3, 6]]);
    assert_eq!(it.len(), 0);
    assert_eq!(it.next(), None);
    let mut it = XYIter::from_extents(Extents::new([1, 2], [0, 2]));
    assert_eq!(it.area(), 2);
    assert_eq!(it.next(), Some([0, 2]));
    assert_eq!(it.next(), Some([1, 2]));
    assert_eq!(it.next(), None);
    let mut it = XYIter::new(3..3, 0..5);
    assert_eq!(it.area(), 0);
    assert_eq!(it.next(), None);
}

#[test]
fn the_line_that_is_typed() {
    let mut line = ActiveConsole::new();
    assert_eq!(line.text(true), "");
    assert_eq!(line.text(false), "\u{2588}");
    line.insert("he\nlo".to_owned());
    assert_eq!(line.text(true), "helo");
    assert_eq!(line.text(false), "helo\u{2588}");
    line.left();
    line.insert("l".to_owned());
    assert_eq!(line.text(true), "hello");
    assert_eq!(line.text(false), "hell\u{2588}");
    line.left();
    line.left();
    assert_eq!(line.text(false), "he\u{2588}lo");
    line.backspace();
    assert_eq!(line.text(true), "hllo");
    assert_eq!(line.text(false), "h\u{2588}lo");
    line.delete();
    assert_eq!(line.text(true), "hlo");
    line.left();
    line.left();
    line.left();
    line.backspace();
    assert_eq!(line.text(false), "\u{2588}lo");
    line.right();
    line.right();
    line.right();
    line.right();
    line.delete();
    assert_eq!(line.text(false), "hlo\u{2588}");
    assert_eq!(line.take(), "hlo");
    assert_eq!(line.text(true), "");
    assert_eq!(string_of(&vec!['a', 'é', '√']), "aé√");
}

#[test]
fn the_console_shows_messages() {
    let mut console = Console::new(5000, 100);
    assert!(!console.is_active());
    assert_eq!(console.enter_command(100), None);
    console.action(ConsoleAction::Insert("ignored".to_owned()));
    console.activate();
    assert!(console.is_active());
    console.action(ConsoleAction::Insert("helx".to_owned()));
    console.action(ConsoleAction::Backspace);
    console.action(ConsoleAction::Insert("p".to_owned()));
    console.action(ConsoleAction::Left);
    console.action(ConsoleAction::Right);
    console.action(ConsoleAction::Delete);
    assert_eq!(console.enter_command(200), Some("help".to_owned()));
    assert_eq!(console.len(200), 1);
    assert_eq!(console.enter_command(300), Some(String::new()));
    console.deactivate();
    assert!(!console.is_active());
    console.push("note".to_owned(), 1000);
    console.push_system(Ok("fine".to_owned()), 2000);
    console.push_system(Err("bad".to_owned()), 3000);
    assert_eq!(console.len(3000), 5);
    assert_eq!(console.len(5200), 5);
    assert_eq!(console.len(5201), 4);
    assert_eq!(console.len(5301), 3);
    assert_eq!(console.len(7001), 1);
    assert_eq!(console.len(8001), 0);
    for n in 0..60 {
        console.push(format!("{}", n), 9000);
    }
    assert_eq!(console.len(9000), 60);
    console.tick();
    assert_eq!(console.len(9000), 47);
    console.tick();
    assert_eq!(console.len(9000), 47);
    let m = ConsoleMessage::new("x".to_owned(), ConsoleColor::System, 10, 50);
    assert!(!m.dead(50) && !m.dead(60) && m.dead(61) && !m.dead(0));
}

#[test]
fn commands_are_read_and_listed() {
    assert!(matches!(command::line("help"), Command::Help));
    assert!(matches!(command::line("  commands  now"), Command::Commands));
    assert!(matches!(command::line("controls"), Command::Controls));
    assert!(matches!(command::line(""), Command::Empty));
    assert!(matches!(command::line(" \t "), Command::Empty));
    assert!(matches!(command::line("select"), Command::SelectNothing));
    match command::line("select  land sea") {
        Command::Select(arg) => assert_eq!(arg, "land"),
        _ => panic!("select was asked for"),
    }
    match command::line("Help") {
        Command::Invalid(name) => assert_eq!(name, "Help"),
        _ => panic!("the command is not known"),
    }
    assert_eq!(entry("ab", "cd"), format!("{:<24}{:>32}", "ab", "cd"));
    assert_eq!(entry("CTRL + SHIFT + ALT + S", "Save-As Archive"), format!("{:<24}{:>32}", "CTRL + SHIFT + ALT + S", "Save-As Archive"));
    assert_eq!(pad_right("abc", 5), "abc  ");
    assert_eq!(pad_right("abcdef", 5), "abcdef");
    assert_eq!(pad_left("abc", 5), "  abc");
    assert_eq!(pad_left("", 2), "  ");
    let mut console = Console::new(1000, 0);
    help(&mut console, 0);
    assert_eq!(console.len(0), 2);
    commands(&mut console, 0);
    assert_eq!(console.len(0), 5);
    controls(&mut console, 0);
    assert_eq!(console.len(0), 28);
}

#[test]
fn the_map_is_shown_in_each_view() {
    let red = [255, 0, 0];
    let blue = [0, 0, 255];
    let mut bundle = Bundle {
        map: ProvinceMap::new(2, 1, &vec![red, blue]).unwrap(),
        config: Config::default(),
        preserved_unsupported_adjacencies: Vec::new(),
    };
    bundle.map.set_province_meta(red, ProvinceKind::Land, "forest".to_owned(), 2);
    assert_eq!(bundle.texture_buffer_color(), vec![255, 0, 0, 255, 0, 0, 255, 255]);
    assert_eq!(bundle.texture_buffer_kind(), vec![0x0a, 0xae, 0x3d, 255, 0x22, 0x22, 0x22, 255]);
    assert_eq!(bundle.texture_buffer_terrain(), vec![0x59, 0xc7, 0x55, 255, 0, 0, 0, 255]);
    let continents = vec![[1, 1, 1], [2, 2, 2], [3, 3, 3]];
    assert_eq!(bundle.texture_buffer_continent(&continents), vec![3, 3, 3, 255, 1, 1, 1, 255]);
    assert_eq!(bundle.texture_buffer_coastal(), vec![0x22, 0x22, 0x22, 255, 0x22, 0x22, 0x22, 255]);
    let part = province_editor::extents::Extents::new([1, 0], [1, 0]);
    assert_eq!(bundle.texture_buffer_selective_color(part), vec![0, 0, 255, 255]);
    assert_eq!(bundle.texture_buffer_selective_kind(part), vec![0x22, 0x22, 0x22, 255]);
    assert_eq!(bundle.texture_buffer_selective_terrain(part), vec![0, 0, 0, 255]);
    assert_eq!(bundle.texture_buffer_selective_continent(part, &continents), vec![1, 1, 1, 255]);
    assert_eq!(bundle.texture_buffer_selective_coastal(part), vec![0x22, 0x22, 0x22, 255]);
    assert_eq!(bundle.texture_buffer(Shade::Kind), bundle.texture_buffer_kind());
    assert_eq!(bundle.image_buffer_mapgen_land(), None);
    assert_eq!(bundle.image_buffer_mapgen_terrain(), Some(vec![0x59, 0xc7, 0x55, 0, 0, 0]));
    assert_eq!(bundle.search_unknown_terrains(), None);
    bundle.map.set_province_meta(blue, ProvinceKind::Sea, "abyss".to_owned(), 0);
    assert_eq!(bundle.image_buffer_mapgen_land(), Some(vec![150, 68, 192, 5, 20, 18]));
    assert_eq!(bundle.image_buffer_mapgen_terrain(), None);
    assert_eq!(bundle.search_unknown_terrains(), Some(vec!["abyss".to_owned()]));
    assert!(bundle.map.contains_color(red) && !bundle.map.contains_color([1, 1, 1]));
    let mut set: HashSet<u32> = HashSet::new();
    set.insert(0xff0000);
    assert!(set.contains_color(red) && !set.contains_color(blue));
}

#[test]
fn cells_are_read_as_the_kind_asked_for() {
    assert_eq!(parse_field::<Parsed<u32>>(Some(" 12 ")).ok(), Some(Parsed(12)));
    assert_eq!(parse_field::<Parsed<u16>>(Some("65535")).ok(), Some(Parsed(65535)));
    assert!(parse_field::<Parsed<u8>>(Some("256")).is_err());
    assert_eq!(parse_field::<Parsed<bool>>(Some("TRUE")).ok(), Some(Parsed(true)));
    assert_eq!(parse_field::<Parsed<Option<u32>>>(Some("-1")).ok(), Some(Parsed(None)));
    assert_eq!(parse_field::<Parsed<Option<u32>>>(Some("4")).ok(), Some(Parsed(Some(4))));
    assert_eq!(parse_field::<Parsed<DefinitionKind>>(Some("Sea")).ok(), Some(Parsed(DefinitionKind::Sea)));
    assert_eq!(parse_field::<Parsed<AdjacencyKind>>(Some("")).ok(), Some(Parsed(AdjacencyKind::Land)));
    assert_eq!(parse_field::<String>(Some("x y")).ok(), Some("x y".to_owned()));
    assert!(parse_field::<String>(None).is_err());
    assert_eq!(parse_field::<Option<String>>(None).ok(), Some(None));
    assert_eq!(parse_field::<Option<String>>(Some("z")).ok(), Some(Some("z".to_owned())));
    assert!(parse_field::<Option<Parsed<u8>>>(Some("z")).is_err());
    assert_eq!(<Parsed<u8> as ParseCsvField>::parse_from(Some("7")).ok(), Some(Parsed(7)));
    let r = RawRecord {
        fields: ["3", "1", "2", "3", "lake", "0", "Lakes", "9"].iter().map(|s| s.to_string()).collect(),
        position: Some((4, 100, 3)),
    };
    let d: Definition = parse_record(&r).ok().unwrap();
    assert_eq!((d.id, d.rgb, d.kind, d.coastal, d.terrain.as_str(), d.continent), (3, [1, 2, 3], DefinitionKind::Lake, false, "lakes", 9));
    assert_eq!(<Definition as ParseCsv>::deserialize_record(&r).ok(), Some(d.clone()));
    assert_eq!(<Definition as ParseCsvRecord>::parse_from(&r).ok(), Some(d.clone()));
    assert_eq!(Definition::deserialize_record(&r).ok(), Some(d.clone()));
    assert_eq!(<Definition as ParseCsv>::serialize_record(&d), vec!["3", "1", "2", "3", "lake", "false", "lakes", "9"]);
    assert_eq!(d.serialize_record(), vec!["3", "1", "2", "3", "lake", "false", "lakes", "9"]);
    assert!(matches!(parse_record::<Adjacency>(&r), Err(CsvError::ParseErrorAt(CsvParseError::ParsingFieldFailed("AdjacencyKind", _), (4, 100, 3)))));
    let short = RawRecord { fields: vec!["1".to_owned(), "2".to_owned()], position: None };
    assert!(matches!(parse_record::<Adjacency>(&short), Err(CsvError::ParseError(CsvParseError::IncorrectColumnCount("AdjacencyKind")))));
    let a = RawRecord {
        fields: ["1", "2", "sea", "-1", "3", "4", "5", ""].iter().map(|s| s.to_string()).collect(),
        position: None,
    };
    let row: Adjacency = parse_record(&a).ok().unwrap();
    assert_eq!((row.from_id, row.to_id, row.kind, row.through, row.start, row.stop), (1, 2, AdjacencyKind::Sea, None, Some([3, 4]), None));
    assert_eq!((row.rule_name.as_str(), row.comment.as_str()), ("", ""));
    assert_eq!(row.serialize_record(), vec!["1", "2", "sea", "-1", "3;4", "-1;-1", "", ""]);
    assert_eq!(row.duplicate(), row);
}

#[test]
fn the_console_is_written_to_through_a_handle() {
    let mut console = Console::new(1000, 0);
    {
        let mut handle = console.handle();
        handle.push("one".to_owned(), 5);
        handle.push_system(Err("two".to_owned()), 6);
    }
    assert_eq!(console.len(6), 2);
    assert_eq!(console.len(1006), 1);
}

#[test]
fn brushes_are_selected_by_name() {
    let config = Config::default();
    assert_eq!(select(ViewMode::Color, &config, "red").err(), Some("Use SPACEBAR to select a new color instead"));
    assert!(matches!(select(ViewMode::Kind, &config, "SEA"), Ok(Selection::Kind(DefinitionKind::Sea))));
    assert_eq!(select(ViewMode::Kind, &config, "unknown").err(), Some("Invalid type, expected one of 'land', 'sea', or 'lake'"));
    match select(ViewMode::Terrain, &config, "forest") {
        Ok(Selection::Terrain(name)) => assert_eq!(name, "forest"),
        _ => panic!("the terrain is known"),
    }
    assert_eq!(select(ViewMode::Terrain, &config, "Forest").err(), Some("Invalid terrain"));
    assert!(matches!(select(ViewMode::Continent, &config, "12"), Ok(Selection::Continent(12))));
    assert!(matches!(select(ViewMode::Continent, &config, "65535"), Ok(Selection::Continent(65535))));
    assert_eq!(select(ViewMode::Continent, &config, "65536").err(), Some("Invalid continent, expected integer"));
    assert_eq!(select(ViewMode::Continent, &config, " 1").err(), Some("Invalid continent, expected integer"));
    assert_eq!(select(ViewMode::Continent, &config, "one").err(), Some("Invalid continent, expected integer"));
    assert_eq!(select(ViewMode::Coastal, &config, "x").err(), Some("Coastal map mode does not support painting"));
    assert!(select(ViewMode::Adjacencies, &config, "x").is_err());
    assert_eq!(BrushMask::cycle(None), Some(BrushMask::LandLakes));
    assert_eq!(BrushMask::cycle(Some(BrushMask::LandLakes)), Some(BrushMask::Sea));
    assert_eq!(BrushMask::cycle(Some(BrushMask::Sea)), None);
}

#[test]
fn commands_are_run() {
    let config = Config::default();
    let mut console = Console::new(1000, 0);
    assert!(run(command::line("help"), &mut console, None, &config, 0).is_none());
    assert_eq!(console.len(0), 2);
    assert!(run(command::line("commands"), &mut console, None, &config, 0).is_none());
    assert_eq!(console.len(0), 5);
    assert!(run(command::line("select sea"), &mut console, None, &config, 0).is_none());
    assert_eq!(console.len(0), 6);
    assert!(run(command::line("select"), &mut console, Some(ViewMode::Kind), &config, 0).is_none());
    assert_eq!(console.len(0), 7);
    assert!(run(command::line("nonsense"), &mut console, Some(ViewMode::Kind), &config, 0).is_none());
    assert!(run(command::line(""), &mut console, Some(ViewMode::Kind), &config, 0).is_none());
    assert_eq!(console.len(0), 9);
    assert!(matches!(
        run(command::line("select lake"), &mut console, Some(ViewMode::Kind), &config, 0),
        Some(Selection::Kind(DefinitionKind::Lake))
    ));
    assert_eq!(console.len(0), 9);
    assert!(run(command::line("select lake"), &mut console, Some(ViewMode::Coastal), &config, 0).is_none());
    assert_eq!(console.len(0), 10);
}

#[test]
fn brushes_are_picked_and_shown() {
    let mut tool = ToolSettings::default();
    assert_eq!(tool.brush_info(ViewMode::Color), "Color (No Brush)");
    assert_eq!(tool.brush_info(ViewMode::Kind), "Type (No Brush)");
    assert_eq!(tool.brush_info(ViewMode::Terrain), "Terrain (No Brush)");
    assert_eq!(tool.brush_info(ViewMode::Continent), "Continent (No Brush)");
    assert_eq!(tool.brush_info(ViewMode::Coastal), "Coastal");
    assert_eq!(tool.brush_info(ViewMode::Adjacencies), "Adjacencies (No Brush)");
    assert_eq!(tool.brush_mask_info(ViewMode::Color), "No Mask");
    assert_eq!(tool.brush_mask_info(ViewMode::Kind), "");

    let mut province = ProvinceData::default();
    assert_eq!(tool.pick_tool_brush(ViewMode::Kind, [1, 2, 3], &province), None);
    assert_eq!(tool.pick_tool_brush(ViewMode::Terrain, [1, 2, 3], &province), None);
    assert!(tool.kind_brush.is_none() && tool.terrain_brush.is_none());
    province.set_meta(ProvinceKind::Lake, "forest".to_owned(), 7);
    assert_eq!(
        tool.pick_tool_brush(ViewMode::Color, [1, 2, 3], &province),
        Some(format!("Picked color {}", stringify_color([1, 2, 3])))
    );
    assert_eq!(tool.pick_tool_brush(ViewMode::Kind, [1, 2, 3], &province), Some("Picked type LAKE".to_owned()));
    assert_eq!(
        tool.pick_tool_brush(ViewMode::Terrain, [1, 2, 3], &province),
        Some("Picked terrain FOREST".to_owned())
    );
    assert_eq!(
        tool.pick_tool_brush(ViewMode::Continent, [1, 2, 3], &province),
        Some(format!("Picked continent {}", province.continent))
    );
    assert_eq!(tool.pick_tool_brush(ViewMode::Coastal, [1, 2, 3], &province), None);
    assert_eq!(tool.pick_tool_brush(ViewMode::Adjacencies, [1, 2, 3], &province), None);
    assert_eq!(tool.color_brush, Some([1, 2, 3]));
    assert_eq!(tool.kind_brush, Some(DefinitionKind::Lake));
    assert_eq!(tool.terrain_brush.as_deref(), Some("forest"));
    assert_eq!(tool.continent_brush, Some(province.continent));
    assert_eq!(tool.brush_info(ViewMode::Color), format!("Color {}", stringify_color([1, 2, 3])));
    assert_eq!(tool.brush_info(ViewMode::Kind), "Type LAKE");
    assert_eq!(tool.brush_info(ViewMode::Terrain), "Terrain FOREST");
    assert_eq!(tool.brush_info(ViewMode::Continent), format!("Continent {}", province.continent));

    tool.take_selection(Selection::Kind(DefinitionKind::Sea));
    tool.take_selection(Selection::Terrain("hills".to_owned()));
    tool.take_selection(Selection::Continent(3));
    assert_eq!(tool.brush_info(ViewMode::Kind), "Type SEA");
    assert_eq!(tool.brush_info(ViewMode::Terrain), "Terrain HILLS");
    assert_eq!(tool.brush_info(ViewMode::Continent), "Continent 3");

    tool.cycle_brush_mask();
    assert_eq!(tool.brush_mask_info(ViewMode::Color), "Mask LAND + LAKES");
    tool.cycle_brush_mask();
    assert_eq!(tool.brush_mask_info(ViewMode::Color), "Mask SEA");
    assert_eq!(tool.brush_mask_info(ViewMode::Terrain), "");
    tool.cycle_brush_mask();
    assert_eq!(tool.brush_mask, None);
    tool.toggle_lasso_snap();
    assert!(tool.lasso_snap);

    let line = tool.camera_info(Some([12, 5]), "100.00%", ViewMode::Kind);
    assert_eq!(line, format!("{:<24}{:<24}{:<24}{}", "12, 5 px", "100.00%", "Type SEA", ""));
    let line = tool.camera_info(None, "50.00%", ViewMode::Color);
    assert_eq!(
        line,
        format!("{:<24}{:<24}{:<24}{}", "", "50.00%", format!("Color {}", stringify_color([1, 2, 3])), "No Mask")
    );
}

#[test]
fn connections_take_two_clicks() {
    let mut tool = ToolSettings::default();
    assert!(tool.tool_connect_activate([1, 1, 1]).is_none());
    assert_eq!(tool.adjacency_selection, None);
    tool.adjacency_brush = Some(ConnectionKind::Canal);
    assert_eq!(tool.brush_info(ViewMode::Adjacencies), "Adjacencies CANAL");
    assert!(tool.tool_connect_activate([1, 1, 1]).is_none());
    assert_eq!(tool.adjacency_selection, Some([1, 1, 1]));
    let (pair, kind) = tool.tool_connect_activate([2, 2, 2]).unwrap();
    assert!(pair == UOrd::<[u8; 3]>::new([1, 1, 1], [2, 2, 2]));
    assert_eq!(kind, ConnectionKind::Canal);
    assert_eq!(tool.adjacency_selection, None);
    assert!(tool.tool_connect_activate([3, 3, 3]).is_none());
    tool.cancel_tool();
    assert_eq!(tool.adjacency_selection, None);
}

#[test]
fn views_change() {
    assert!(matches!(set_view_mode(ViewMode::Color, ViewMode::Terrain, true), ViewChange::Refused));
    assert!(matches!(set_view_mode(ViewMode::Terrain, ViewMode::Terrain, true), ViewChange::Refused));
    assert!(matches!(set_view_mode(ViewMode::Terrain, ViewMode::Terrain, false), ViewChange::Kept));
    assert!(matches!(set_view_mode(ViewMode::Color, ViewMode::Terrain, false), ViewChange::ChangedAndCancelled));
    assert!(matches!(set_view_mode(ViewMode::Adjacencies, ViewMode::Kind, true), ViewChange::ChangedAndCancelled));
    assert!(matches!(set_view_mode(ViewMode::Kind, ViewMode::Coastal, true), ViewChange::Changed));
    assert_eq!(
        unknown_terrains(&vec!["swamp".to_owned(), "Tundra".to_owned(), "ice".to_owned()]),
        "Terrain mode unavailable, unknown terrains present: SWAMP, TUNDRA, ICE"
    );
    assert_eq!(
        unknown_terrains(&vec!["swamp".to_owned()]),
        "Terrain mode unavailable, unknown terrains present: SWAMP"
    );
}

#[test]
fn rivers_stay_and_the_rest_is_cleared() {
    let marks: [[u8; 3]; 12] = [
        [0, 255, 0], [255, 0, 0], [255, 252, 0], [0, 225, 255], [0, 200, 255], [0, 150, 255],
        [0, 100, 255], [0, 0, 255], [0, 0, 225], [0, 0, 200], [0, 0, 150], [0, 0, 100],
    ];
    for mark in marks {
        assert!(is_river_mark(mark));
    }
    assert!(!is_river_mark([255, 255, 255]));
    assert!(!is_river_mark([122, 122, 122]));
    assert!(!is_river_mark([0, 0, 0]));
    let overlay = process_and_clear_rivers_image(&vec![[255, 255, 255], [0, 0, 255], [122, 122, 122], [255, 252, 0]]);
    assert_eq!(overlay, vec![[0, 0, 0, 0], [0, 0, 255, 255], [0, 0, 0, 0], [255, 252, 0, 255]]);
    assert!(process_and_clear_rivers_image(&Vec::new()).is_empty());
}
