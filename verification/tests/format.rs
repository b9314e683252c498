use province_editor::kinds::{AdjacencyKind, DefinitionKind};
use province_editor::records::CsvError;
use province_editor::rows::{Adjacency, Definition};

/// A definition table of the given number of provinces, as a game would
/// write it.
fn definition_sample(count: u32) -> String {
    let mut text = String::from("0;0;0;0;land;false;unknown;0\r\n");
    for id in 1..=count {
        let kind = match id % 3 {
            0 => "sea",
            1 => "land",
            _ => "lake",
        };
        let coastal = if id % 2 == 0 { "true" } else { "false" };
        let terrain = if id % 3 == 0 { "ocean" } else { "Plains" };
        text.push_str(&format!(
            "{};{};{};{};{};{};{};{}\r\n",
            id,
            id % 256,
            (id / 256) % 256,
            (id / 65536) % 256,
            kind,
            coastal,
            terrain,
            id % 7
        ));
    }
    text
}

/// An adjacency table of the given number of rows, with header and footer.
fn adjacency_sample(count: u32) -> String {
    let mut text =
        String::from("From;To;Type;Through;start_x;start_y;stop_x;stop_y;adjacency_rule_name;Comment\r\n");
    for n in 0..count {
        let kind = match n % 4 {
            0 => "sea",
            1 => "impassable",
            2 => "",
            _ => "river",
        };
        if n % 2 == 0 {
            text.push_str(&format!("{};{};{};{};-1;-1;-1;-1;;strait {}\r\n", n + 1, n + 2, kind, n + 3, n));
        } else {
            text.push_str(&format!("{};{};{};-1;10;20;30;40;RULE_{};\r\n", n + 1, n + 2, kind, n));
        }
    }
    text.push_str("-1;-1;;-1;-1;-1;-1;-1;-1\r\n");
    text
}

#[test]
fn test_definition() {
    let sample = definition_sample(13375);
    let definition = Definition::read_records(sample.as_bytes()).unwrap();
    assert_eq!(definition.len(), 13375);
}

#[test]
fn test_adjacency() {
    let sample = adjacency_sample(233);
    let adjacencies = Adjacency::read_records(sample.as_bytes()).unwrap();
    assert_eq!(adjacencies.len(), 233);
    println!("adjacencies[0]: {:?}", adjacencies[0]);
    println!("adjacencies[1]: {:?}", adjacencies[1]);
    println!("adjacencies[232]: {:?}", adjacencies[232]);
}

#[test]
fn definition_cells_are_read_in_order() {
    let text = "0;0;0;0;land;false;unknown;0\r\n7; 10;20;30;SEA;1;Ocean;0\r\n";
    let rows = Definition::read_records(text.as_bytes()).unwrap();
    assert_eq!(rows.len(), 1);
    assert_eq!(rows[0].id, 7);
    assert_eq!(rows[0].rgb, [10, 20, 30]);
    assert_eq!(rows[0].kind, DefinitionKind::Sea);
    assert!(rows[0].coastal);
    assert_eq!(rows[0].terrain, "ocean");
    assert_eq!(rows[0].continent, 0);
}

#[test]
fn definition_wrong_header_is_refused() {
    let text = "1;0;0;0;land;false;unknown;0\r\n7;10;20;30;sea;1;ocean;0\r\n";
    match Definition::read_records(text.as_bytes()) {
        Err(CsvError::InvalidHeaderRecord(found)) => assert_eq!(found[0], "1"),
        _ => panic!("the header should have been refused"),
    }
}

#[test]
fn definition_bad_number_is_refused_with_its_position() {
    let text = "0;0;0;0;land;false;unknown;0\r\n7;300;20;30;sea;1;ocean;0\r\n";
    match Definition::read_records(text.as_bytes()) {
        Err(CsvError::ParseErrorAt(_, (_, byte, record))) => {
            assert_eq!(byte, 29);
            assert_eq!(record, 1);
        }
        _ => panic!("the record should have been refused"),
    }
}

#[test]
fn definition_missing_cell_is_refused() {
    let text = "0;0;0;0;land;false;unknown;0\r\n7;30;20;30;sea;1;ocean\r\n";
    assert!(Definition::read_records(text.as_bytes()).is_err());
}

#[test]
fn adjacency_cells_are_read_in_order() {
    let text = adjacency_sample(2);
    let rows = Adjacency::read_records(text.as_bytes()).unwrap();
    assert_eq!(rows.len(), 2);
    assert_eq!(rows[0].from_id, 1);
    assert_eq!(rows[0].to_id, 2);
    assert_eq!(rows[0].kind, AdjacencyKind::Sea);
    assert_eq!(rows[0].through, Some(3));
    assert_eq!(rows[0].start, None);
    assert_eq!(rows[0].stop, None);
    assert_eq!(rows[0].rule_name, "");
    assert_eq!(rows[0].comment, "strait 0");
    assert_eq!(rows[1].kind, AdjacencyKind::Impassable);
    assert_eq!(rows[1].through, None);
    assert_eq!(rows[1].start, Some([10, 20]));
    assert_eq!(rows[1].stop, Some([30, 40]));
    assert_eq!(rows[1].rule_name, "RULE_1");
}

#[test]
fn adjacency_wrong_footer_is_refused() {
    let text = "From;To;Type;Through;start_x;start_y;stop_x;stop_y;adjacency_rule_name;Comment\r\n1;2;sea;-1;-1;-1;-1;-1;;\r\n3;4;sea;-1;-1;-1;-1;-1;;\r\n";
    match Adjacency::read_records(text.as_bytes()) {
        Err(CsvError::InvalidFooterRecord(found)) => assert_eq!(found[0], "3"),
        _ => panic!("the footer should have been refused"),
    }
}

#[test]
fn written_definitions_are_read_back() {
    let rows = vec![
        Definition { id: 1, rgb: [1, 2, 3], kind: DefinitionKind::Land, coastal: true, terrain: "plains".to_owned(), continent: 2 },
        Definition { id: 2, rgb: [4, 5, 6], kind: DefinitionKind::Lake, coastal: false, terrain: "lakes".to_owned(), continent: 0 },
    ];
    let bytes = Definition::write_records(&rows).ok().unwrap();
    assert_eq!(
        String::from_utf8(bytes.clone()).unwrap(),
        "0;0;0;0;land;false;unknown;0\r\n1;1;2;3;land;true;plains;2\r\n2;4;5;6;lake;false;lakes;0\r\n"
    );
    let back = Definition::read_records(&bytes).ok().unwrap();
    assert_eq!(back, rows);
}

#[test]
fn written_adjacencies_hold_their_cells() {
    let rows = vec![Adjacency {
        from_id: 1,
        to_id: 2,
        kind: AdjacencyKind::Sea,
        through: Some(9),
        start: None,
        stop: None,
        rule_name: "R".to_owned(),
        comment: "c".to_owned(),
    }];
    let bytes = Adjacency::write_records(&rows).ok().unwrap();
    let text = String::from_utf8(bytes).unwrap();
    assert!(text.starts_with("From;To;Type;Through;start_x;start_y;stop_x;stop_y;adjacency_rule_name;Comment\r\n"));
    assert!(text.contains("1;2;sea;9;\"-1;-1\";\"-1;-1\";R;c\r\n"));
    assert!(text.ends_with("-1;-1;\"\";-1;-1;-1;-1;-1;-1\r\n") || text.ends_with("-1;-1;;-1;-1;-1;-1;-1;-1\r\n"));
}

#[test]
fn bytes_that_are_no_text_are_refused() {
    let bytes = [b'0', b';', 0xff, 0xfe, b'\r', b'\n'];
    assert!(matches!(Definition::read_records(&bytes), Err(CsvError::Inner(_))));
    assert!(matches!(Adjacency::read_records(&bytes), Err(CsvError::Inner(_))));
}

#[test]
fn empty_tables_hold_nothing() {
    assert_eq!(Definition::read_records(b"").ok().map(|rows| rows.len()), Some(0));
    assert_eq!(Adjacency::read_records(b"").ok().map(|rows| rows.len()), Some(0));
    assert_eq!(Definition::read_records(b"0;0;0;0;land;false;unknown;0\r\n").ok().map(|rows| rows.len()), Some(0));
    // comments and empty lines are no records
    let text = "0;0;0;0;land;false;unknown;0\r\n# a comment\r\n\r\n1;2;3;4;land;true;plains;1\r\n";
    assert_eq!(Definition::read_records(text.as_bytes()).ok().map(|rows| rows.len()), Some(1));
}
