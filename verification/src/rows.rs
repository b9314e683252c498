//! The rows of the two tables that a map is saved to.
use vstd::prelude::*;
use vstd::string::StringExecFns;

use crate::color::Color;
use crate::kinds::{AdjacencyKind, DefinitionKind, ParseError};
use crate::records::{csv_bytes, row_texts, CsvError, CsvParseError, Fault, RawRecord, RawRecordView, TableFault, cell, cell_at, csv_records, locate, located, num_cell, opt_text, parse_num_field, parse_string_field, parse_u16_field, parse_u32_field, parse_u8_field, read_raw_records, record_views, slice_texts, strip_frame, text_cell, texts, u16_cell, u32_cell, u8_cell, unframed, write_raw_records};
use crate::text::{lemma_text_le_trans, lemma_text_le_total, decimal, decimal_string, lowercase, lowered, str_equal, str_le, text_le, trim, trimmed};

verus! {

/// A row of the definition table: one province.
#[derive(Debug, Clone, PartialEq, Eq)]
pub struct Definition {
    pub id: u32,
    pub rgb: Color,
    pub kind: DefinitionKind,
    pub coastal: bool,
    pub terrain: String,
    pub continent: u16,
}

/// What a definition row holds.
pub struct DefinitionView {
    pub id: u32,
    pub rgb: Color,
    pub kind: DefinitionKind,
    pub coastal: bool,
    pub terrain: Seq<char>,
    pub continent: u16,
}

impl View for Definition {
    type V = DefinitionView;

    open spec fn view(&self) -> DefinitionView {
        DefinitionView {
            id: self.id,
            rgb: self.rgb,
            kind: self.kind,
            coastal: self.coastal,
            terrain: self.terrain@,
            continent: self.continent,
        }
    }
}

/// A row of the adjacency table: one connection between two provinces.
#[derive(Debug, Clone, PartialEq, Eq)]
pub struct Adjacency {
    pub from_id: u32,
    pub to_id: u32,
    pub kind: AdjacencyKind,
    /// A province that can block the passage.
    pub through: Option<u32>,
    pub start: Option<[u32; 2]>,
    pub stop: Option<[u32; 2]>,
    pub rule_name: String,
    pub comment: String,
}

/// What an adjacency row holds.
pub struct AdjacencyView {
    pub from_id: u32,
    pub to_id: u32,
    pub kind: AdjacencyKind,
    pub through: Option<u32>,
    pub start: Option<[u32; 2]>,
    pub stop: Option<[u32; 2]>,
    pub rule_name: Seq<char>,
    pub comment: Seq<char>,
}

impl View for Adjacency {
    type V = AdjacencyView;

    open spec fn view(&self) -> AdjacencyView {
        AdjacencyView {
            from_id: self.from_id,
            to_id: self.to_id,
            kind: self.kind,
            through: self.through,
            start: self.start,
            stop: self.stop,
            rule_name: self.rule_name@,
            comment: self.comment@,
        }
    }
}

/// What reading a cell as the kind of a definition gives.
pub open spec fn definition_kind_cell(cell: Option<Seq<char>>) -> Result<DefinitionKind, Fault> {
    match cell {
        None => Err(Fault::Column("DefinitionKind"@)),
        Some(s) => match DefinitionKind::parsed(trimmed(s)) {
            Ok(k) => Ok(k),
            Err(e) => Err(Fault::Field("DefinitionKind"@, e)),
        },
    }
}

/// What reading a cell as the kind of an adjacency gives.
pub open spec fn adjacency_kind_cell(cell: Option<Seq<char>>) -> Result<AdjacencyKind, Fault> {
    match cell {
        None => Err(Fault::Column("AdjacencyKind"@)),
        Some(s) => match AdjacencyKind::parsed(trimmed(s)) {
            Ok(k) => Ok(k),
            Err(e) => Err(Fault::Field("AdjacencyKind"@, e)),
        },
    }
}

/// What reading a cell as a yes or no gives: `0` and `1` count, and the
/// words `false` and `true` in any case.
pub open spec fn bool_cell(cell: Option<Seq<char>>) -> Result<bool, Fault> {
    match cell {
        None => Err(Fault::Column("bool"@)),
        Some(s) => {
            let t = trimmed(s);
            if t == "0"@ {
                Ok(false)
            } else if t == "1"@ {
                Ok(true)
            } else if lowered(t) == "true"@ {
                Ok(true)
            } else if lowered(t) == "false"@ {
                Ok(false)
            } else {
                Err(Fault::Field("bool"@, ParseError::ParseBoolError))
            }
        },
    }
}

/// Reads a cell as the kind of a definition.
pub fn parse_definition_kind_field(cell: Option<&str>) -> (r: Result<DefinitionKind, CsvParseError>)
    ensures
        match r {
            Ok(k) => definition_kind_cell(opt_text(cell)) == Ok::<DefinitionKind, Fault>(k),
            Err(e) => definition_kind_cell(opt_text(cell)) == Err::<DefinitionKind, Fault>(e@),
        },
{
    match cell {
        None => Err(CsvParseError::IncorrectColumnCount("DefinitionKind")),
        Some(s) => match DefinitionKind::parse(trim(s)) {
            Ok(k) => Ok(k),
            Err(e) => Err(CsvParseError::ParsingFieldFailed("DefinitionKind", e)),
        },
    }
}

/// Reads a cell as the kind of an adjacency.
pub fn parse_adjacency_kind_field(cell: Option<&str>) -> (r: Result<AdjacencyKind, CsvParseError>)
    ensures
        match r {
            Ok(k) => adjacency_kind_cell(opt_text(cell)) == Ok::<AdjacencyKind, Fault>(k),
            Err(e) => adjacency_kind_cell(opt_text(cell)) == Err::<AdjacencyKind, Fault>(e@),
        },
{
    match cell {
        None => Err(CsvParseError::IncorrectColumnCount("AdjacencyKind")),
        Some(s) => match AdjacencyKind::parse(trim(s)) {
            Ok(k) => Ok(k),
            Err(e) => Err(CsvParseError::ParsingFieldFailed("AdjacencyKind", e)),
        },
    }
}

/// Reads a cell as a yes or no.
pub fn parse_bool_field(cell: Option<&str>) -> (r: Result<bool, CsvParseError>)
    ensures
        match r {
            Ok(b) => bool_cell(opt_text(cell)) == Ok::<bool, Fault>(b),
            Err(e) => bool_cell(opt_text(cell)) == Err::<bool, Fault>(e@),
        },
{
    match cell {
        None => Err(CsvParseError::IncorrectColumnCount("bool")),
        Some(s) => {
            let t = trim(s);
            if str_equal(t, "0") {
                Ok(false)
            } else if str_equal(t, "1") {
                Ok(true)
            } else {
                let l = lowercase(t);
                if str_equal(l.as_str(), "true") {
                    Ok(true)
                } else if str_equal(l.as_str(), "false") {
                    Ok(false)
                } else {
                    Err(CsvParseError::ParsingFieldFailed("bool", ParseError::ParseBoolError))
                }
            }
        },
    }
}

/// The text of a yes or no.
pub open spec fn bool_text(b: bool) -> Seq<char> {
    if b {
        "true"@
    } else {
        "false"@
    }
}

/// The text of an optional number: `-1` stands for none.
pub open spec fn maybe_num_text(num: Option<u32>) -> Seq<char> {
    match num {
        Some(n) => decimal(n as nat),
        None => "-1"@,
    }
}

/// The text of an optional position: `-1;-1` stands for none.
pub open spec fn maybe_pos_text(pos: Option<[u32; 2]>) -> Seq<char> {
    match pos {
        Some(p) => decimal(p[0] as nat) + ";"@ + decimal(p[1] as nat),
        None => "-1;-1"@,
    }
}

pub fn stringify_maybe_num(num: Option<u32>) -> (s: String)
    ensures
        s@ == maybe_num_text(num),
{
    match num {
        Some(n) => decimal_string(n as u64),
        None => "-1".to_owned(),
    }
}

pub fn stringify_maybe_pos(pos: Option<[u32; 2]>) -> (s: String)
    ensures
        s@ == maybe_pos_text(pos),
{
    match pos {
        Some(p) => {
            let mut s = decimal_string(p[0] as u64);
            s.append(";");
            s.append(decimal_string(p[1] as u64).as_str());
            s
        },
        None => "-1;-1".to_owned(),
    }
}

/// The header of the definition table.
pub open spec fn definition_header() -> Seq<Seq<char>> {
    seq!["0"@, "0"@, "0"@, "0"@, "land"@, "false"@, "unknown"@, "0"@]
}

/// The header of the adjacency table.
pub open spec fn adjacency_header() -> Seq<Seq<char>> {
    seq![
        "From"@,
        "To"@,
        "Type"@,
        "Through"@,
        "start_x"@,
        "start_y"@,
        "stop_x"@,
        "stop_y"@,
        "adjacency_rule_name"@,
        "Comment"@,
    ]
}

/// The footer of the adjacency table.
pub open spec fn adjacency_footer() -> Seq<Seq<char>> {
    seq!["-1"@, "-1"@, ""@, "-1"@, "-1"@, "-1"@, "-1"@, "-1"@, "-1"@]
}

impl DefinitionView {
    /// What the cells of a record spell as a definition: id, red, green,
    /// blue, kind, coastal, terrain and continent, in this order; the
    /// first cell that fails gives the error.
    pub open spec fn parsed(fields: Seq<Seq<char>>) -> Result<DefinitionView, Fault> {
        match u32_cell(cell_at(fields, 0)) {
            Err(e) => Err(e),
            Ok(id) => match u8_cell(cell_at(fields, 1)) {
                Err(e) => Err(e),
                Ok(r) => match u8_cell(cell_at(fields, 2)) {
                    Err(e) => Err(e),
                    Ok(g) => match u8_cell(cell_at(fields, 3)) {
                        Err(e) => Err(e),
                        Ok(b) => match definition_kind_cell(cell_at(fields, 4)) {
                            Err(e) => Err(e),
                            Ok(kind) => match bool_cell(cell_at(fields, 5)) {
                                Err(e) => Err(e),
                                Ok(coastal) => match text_cell(cell_at(fields, 6)) {
                                    Err(e) => Err(e),
                                    Ok(terrain) => match u16_cell(cell_at(fields, 7)) {
                                        Err(e) => Err(e),
                                        Ok(continent) => Ok(
                                            DefinitionView {
                                                id: id as u32,
                                                rgb: [r as u8, g as u8, b as u8],
                                                kind,
                                                coastal,
                                                terrain: lowered(terrain),
                                                continent: continent as u16,
                                            },
                                        ),
                                    },
                                },
                            },
                        },
                    },
                },
            },
        }
    }

    /// The cells of a definition.
    pub open spec fn cells(self) -> Seq<Seq<char>> {
        seq![
            decimal(self.id as nat),
            decimal(self.rgb[0] as nat),
            decimal(self.rgb[1] as nat),
            decimal(self.rgb[2] as nat),
            self.kind.text(),
            bool_text(self.coastal),
            self.terrain,
            decimal(self.continent as nat),
        ]
    }

    /// The order of definitions: by kind, then continent, then terrain.
    pub open spec fn le(self, other: DefinitionView) -> bool {
        if self.kind != other.kind {
            self.kind.rank() < other.kind.rank()
        } else if self.continent != other.continent {
            self.continent < other.continent
        } else {
            text_le(self.terrain, other.terrain)
        }
    }
}

/// What the records of a table spell as definitions, one each; the first
/// record that fails gives the error, with its position.
pub open spec fn parsed_definitions(records: Seq<RawRecordView>) -> Result<
    Seq<DefinitionView>,
    TableFault,
>
    decreases records.len(),
{
    if records.len() == 0 {
        Ok(Seq::empty())
    } else {
        match parsed_definitions(records.drop_last()) {
            Err(e) => Err(e),
            Ok(ds) => match DefinitionView::parsed(records.last().fields) {
                Err(e) => Err(located(e, records.last().position)),
                Ok(d) => Ok(ds.push(d)),
            },
        }
    }
}

/// What the records of a definition table spell, after its header.
pub open spec fn definition_table(records: Seq<RawRecordView>) -> Result<
    Seq<DefinitionView>,
    TableFault,
> {
    match unframed(records, Some(definition_header()), None) {
        Err(e) => Err(e),
        Ok(body) => parsed_definitions(body),
    }
}

/// The definitions of a sequence, as values.
pub open spec fn definition_views(v: Seq<Definition>) -> Seq<DefinitionView> {
    Seq::new(v.len(), |i: int| v[i]@)
}

impl Definition {
    /// Another definition that holds the same.
    pub fn duplicate(&self) -> (r: Definition)
        ensures
            r@ == self@,
    {
        Definition {
            id: self.id,
            rgb: self.rgb,
            kind: self.kind,
            coastal: self.coastal,
            terrain: self.terrain.clone(),
            continent: self.continent,
        }
    }

    /// Reads a definition from the cells of a record.
    pub fn deserialize_record(record: &RawRecord) -> (r: Result<Definition, CsvError>)
        ensures
            match r {
                Ok(d) => DefinitionView::parsed(record@.fields) == Ok::<DefinitionView, Fault>(d@),
                Err(e) => DefinitionView::parsed(record@.fields) is Err && e@ == located(
                    DefinitionView::parsed(record@.fields)->Err_0,
                    record.position,
                ),
            },
    {
        match Definition::parse_cells(record) {
            Ok(d) => Ok(d),
            Err(e) => Err(locate(e, record.position)),
        }
    }

    fn parse_cells(record: &RawRecord) -> (r: Result<Definition, CsvParseError>)
        ensures
            match r {
                Ok(d) => DefinitionView::parsed(record@.fields) == Ok::<DefinitionView, Fault>(d@),
                Err(e) => DefinitionView::parsed(record@.fields) == Err::<DefinitionView, Fault>(
                    e@,
                ),
            },
    {
        let id = parse_u32_field(cell(record, 0))?;
        let r = parse_u8_field(cell(record, 1))?;
        let g = parse_u8_field(cell(record, 2))?;
        let b = parse_u8_field(cell(record, 3))?;
        let kind = parse_definition_kind_field(cell(record, 4))?;
        let coastal = parse_bool_field(cell(record, 5))?;
        let terrain = parse_string_field(cell(record, 6))?;
        let continent = parse_u16_field(cell(record, 7))?;
        let d = Definition {
            id,
            rgb: [r, g, b],
            kind,
            coastal,
            terrain: lowercase(terrain.as_str()),
            continent,
        };
        proof {
            let want = DefinitionView::parsed(record@.fields);
            assert(want is Ok);
            assert(d@.rgb =~= want->Ok_0.rgb);
        }
        Ok(d)
    }

    /// The cells of this definition.
    pub fn serialize_record(&self) -> (r: Vec<String>)
        ensures
            texts(r@) == self@.cells(),
    {
        let r = vec![
            decimal_string(self.id as u64),
            decimal_string(self.rgb[0] as u64),
            decimal_string(self.rgb[1] as u64),
            decimal_string(self.rgb[2] as u64),
            self.kind.to_str().to_owned(),
            if self.coastal { "true".to_owned() } else { "false".to_owned() },
            self.terrain.clone(),
            decimal_string(self.continent as u64),
        ];
        proof {
            assert(texts(r@) =~= self@.cells());
        }
        r
    }

    /// Whether this definition comes before another or with it: the kind
    /// decides, then the continent, then the terrain.
    pub fn le(&self, other: &Definition) -> (r: bool)
        ensures
            r == self@.le(other@),
    {
        if self.kind != other.kind {
            definition_rank(self.kind) < definition_rank(other.kind)
        } else if self.continent != other.continent {
            self.continent < other.continent
        } else {
            str_le(self.terrain.as_str(), other.terrain.as_str())
        }
    }

    /// Reads the definitions from the records of a table: the first
    /// record is the header, each other one a definition.
    pub fn from_records(records: Vec<RawRecord>) -> (r: Result<Vec<Definition>, CsvError>)
        ensures
            match r {
                Ok(v) => definition_table(record_views(records@)) == Ok::<
                    Seq<DefinitionView>,
                    TableFault,
                >(definition_views(v@)),
                Err(e) => definition_table(record_views(records@)) == Err::<
                    Seq<DefinitionView>,
                    TableFault,
                >(e@),
            },
    {
        let header = vec!["0", "0", "0", "0", "land", "false", "unknown", "0"];
        proof {
            assert(slice_texts(header@) =~= definition_header());
        }
        let body = match strip_frame(records, Some(&header), None) {
            Ok(body) => body,
            Err(e) => { return Err(e); },
        };
        let mut out: Vec<Definition> = Vec::new();
        let mut i: usize = 0;
        proof {
            assert(record_views(body@).take(0) =~= Seq::empty());
            assert(definition_views(out@) =~= Seq::empty());
        }
        while i < body.len()
            invariant
                i <= body@.len(),
                unframed(record_views(records@), Some(definition_header()), None) == Ok::<
                    Seq<RawRecordView>,
                    TableFault,
                >(record_views(body@)),
                parsed_definitions(record_views(body@).take(i as int)) == Ok::<
                    Seq<DefinitionView>,
                    TableFault,
                >(definition_views(out@)),
            decreases body@.len() - i,
        {
            proof {
                let all = record_views(body@);
                assert(all.take(i as int + 1).drop_last() =~= all.take(i as int));
                assert(all.take(i as int + 1).last() == body@[i as int]@);
                assert(body@[i as int]@.position == body@[i as int].position);
            }
            match Definition::deserialize_record(&body[i]) {
                Ok(d) => {
                    let ghost before = definition_views(out@);
                    out.push(d);
                    proof {
                        assert(definition_views(out@) =~= before.push(d@));
                    }
                },
                Err(e) => {
                    proof {
                        lemma_definitions_fail(record_views(body@), i as int + 1);
                    }
                    return Err(e);
                },
            }
            i += 1;
        }
        proof {
            assert(record_views(body@).take(body@.len() as int) =~= record_views(body@));
        }
        Ok(out)
    }

    /// Reads the definitions from the bytes of a table file.
    pub fn read_records(bytes: &[u8]) -> (r: Result<Vec<Definition>, CsvError>)
        ensures
            match r {
                Ok(v) => csv_records(bytes@) is Some && definition_table(
                    csv_records(bytes@).unwrap(),
                ) == Ok::<Seq<DefinitionView>, TableFault>(definition_views(v@)),
                Err(e) => match csv_records(bytes@) {
                    Some(records) => definition_table(records) == Err::<
                        Seq<DefinitionView>,
                        TableFault,
                    >(e@),
                    None => e@ == TableFault::Inner,
                },
            },
    {
        match read_raw_records(bytes) {
            Ok(records) => Definition::from_records(records),
            Err(e) => Err(CsvError::Inner(e)),
        }
    }

    /// The records of a definition table: the header, then the definitions.
    pub fn to_records(entries: &Vec<Definition>) -> (rows: Vec<Vec<String>>)
        ensures
            rows@.len() == entries@.len() + 1,
            texts(rows@[0]@) == definition_header(),
            forall|i: int| 0 <= i < entries@.len() ==> texts(#[trigger] rows@[i + 1]@) == entries@[i]@.cells(),
    {
        let header = vec![
            "0".to_owned(),
            "0".to_owned(),
            "0".to_owned(),
            "0".to_owned(),
            "land".to_owned(),
            "false".to_owned(),
            "unknown".to_owned(),
            "0".to_owned(),
        ];
        proof {
            assert(texts(header@) =~= definition_header());
        }
        let mut rows: Vec<Vec<String>> = Vec::new();
        rows.push(header);
        let mut i: usize = 0;
        while i < entries.len()
            invariant
                i <= entries@.len(),
                rows@.len() == i + 1,
                texts(rows@[0]@) == definition_header(),
                forall|j: int| 0 <= j < i ==> texts(#[trigger] rows@[j + 1]@) == entries@[j]@.cells(),
            decreases entries@.len() - i,
        {
            rows.push(entries[i].serialize_record());
            i += 1;
        }
        rows
    }

    /// The bytes of a definition table file: what the csv crate writes for
    /// the header and the definitions.
    pub fn write_records(entries: &Vec<Definition>) -> (r: Result<Vec<u8>, CsvError>)
        ensures
            match r {
                Ok(bytes) => csv_bytes(definition_rows(definition_views(entries@))) == Some(bytes@),
                Err(e) => csv_bytes(definition_rows(definition_views(entries@))) is None && e@
                    == TableFault::Inner,
            },
    {
        let rows = Definition::to_records(entries);
        proof {
            let want = definition_rows(definition_views(entries@));
            assert forall|i: int| 0 <= i < want.len() implies row_texts(rows@)[i] == want[i] by {
                if i > 0 {
                    assert(texts(rows@[i - 1 + 1]@) == entries@[i - 1]@.cells());
                }
            }
            assert(row_texts(rows@) =~= want);
        }
        match write_raw_records(&rows) {
            Ok(bytes) => Ok(bytes),
            Err(e) => Err(CsvError::Inner(e)),
        }
    }
}

/// What reading a cell that may be missing as a text gives.
pub open spec fn maybe_text_cell(cell: Option<Seq<char>>) -> Seq<char> {
    match cell {
        Some(s) => s,
        None => Seq::empty(),
    }
}

/// The position of two optional coordinates: there is one where both are
/// there.
pub open spec fn zipped(x: Option<nat>, y: Option<nat>) -> Option<Seq<u32>> {
    match (x, y) {
        (Some(x), Some(y)) => Some(seq![x as u32, y as u32]),
        _ => None,
    }
}

/// What the cells of a record spell as an adjacency, read in their order:
/// from, to, kind, through, start (column, row), stop (column, row), rule
/// name and comment, of which the last two may be missing.
pub struct AdjacencyCells {
    pub from_id: u32,
    pub to_id: u32,
    pub kind: AdjacencyKind,
    pub through: Option<u32>,
    pub start: Option<Seq<u32>>,
    pub stop: Option<Seq<u32>>,
    pub rule_name: Seq<char>,
    pub comment: Seq<char>,
}

impl AdjacencyView {
    /// The cells that this adjacency was read from, or is written to.
    pub open spec fn as_cells(self) -> AdjacencyCells {
        AdjacencyCells {
            from_id: self.from_id,
            to_id: self.to_id,
            kind: self.kind,
            through: self.through,
            start: match self.start {
                Some(p) => Some(p@),
                None => None,
            },
            stop: match self.stop {
                Some(p) => Some(p@),
                None => None,
            },
            rule_name: self.rule_name,
            comment: self.comment,
        }
    }

    /// What the cells of a record spell as an adjacency; the first cell
    /// that fails gives the error.
    pub open spec fn parsed(fields: Seq<Seq<char>>) -> Result<AdjacencyCells, Fault> {
        match u32_cell(cell_at(fields, 0)) {
            Err(e) => Err(e),
            Ok(from_id) => match u32_cell(cell_at(fields, 1)) {
                Err(e) => Err(e),
                Ok(to_id) => match adjacency_kind_cell(cell_at(fields, 2)) {
                    Err(e) => Err(e),
                    Ok(kind) => match num_cell(cell_at(fields, 3)) {
                        Err(e) => Err(e),
                        Ok(through) => match num_cell(cell_at(fields, 4)) {
                            Err(e) => Err(e),
                            Ok(start_x) => match num_cell(cell_at(fields, 5)) {
                                Err(e) => Err(e),
                                Ok(start_y) => match num_cell(cell_at(fields, 6)) {
                                    Err(e) => Err(e),
                                    Ok(stop_x) => match num_cell(cell_at(fields, 7)) {
                                        Err(e) => Err(e),
                                        Ok(stop_y) => Ok(
                                            AdjacencyCells {
                                                from_id: from_id as u32,
                                                to_id: to_id as u32,
                                                kind,
                                                through: match through {
                                                    Some(t) => Some(t as u32),
                                                    None => None,
                                                },
                                                start: zipped(start_x, start_y),
                                                stop: zipped(stop_x, stop_y),
                                                rule_name: maybe_text_cell(cell_at(fields, 8)),
                                                comment: maybe_text_cell(cell_at(fields, 9)),
                                            },
                                        ),
                                    },
                                },
                            },
                        },
                    },
                },
            },
        }
    }

    /// The cells of an adjacency.
    pub open spec fn cells(self) -> Seq<Seq<char>> {
        seq![
            decimal(self.from_id as nat),
            decimal(self.to_id as nat),
            self.kind.text(),
            maybe_num_text(self.through),
            maybe_pos_text(self.start),
            maybe_pos_text(self.stop),
            self.rule_name,
            self.comment,
        ]
    }

    /// The order of adjacencies: by rule name, then comment, then kind.
    pub open spec fn le(self, other: AdjacencyView) -> bool {
        if self.rule_name != other.rule_name {
            text_le(self.rule_name, other.rule_name)
        } else if self.comment != other.comment {
            text_le(self.comment, other.comment)
        } else {
            self.kind.rank() <= other.kind.rank()
        }
    }
}

/// What the records of a table spell as adjacencies, one each; the first
/// record that fails gives the error, with its position.
pub open spec fn parsed_adjacencies(records: Seq<RawRecordView>) -> Result<
    Seq<AdjacencyCells>,
    TableFault,
>
    decreases records.len(),
{
    if records.len() == 0 {
        Ok(Seq::empty())
    } else {
        match parsed_adjacencies(records.drop_last()) {
            Err(e) => Err(e),
            Ok(ds) => match AdjacencyView::parsed(records.last().fields) {
                Err(e) => Err(located(e, records.last().position)),
                Ok(d) => Ok(ds.push(d)),
            },
        }
    }
}

/// What the records of an adjacency table spell, between its header and
/// its footer.
pub open spec fn adjacency_table(records: Seq<RawRecordView>) -> Result<
    Seq<AdjacencyCells>,
    TableFault,
> {
    match unframed(records, Some(adjacency_header()), Some(adjacency_footer())) {
        Err(e) => Err(e),
        Ok(body) => parsed_adjacencies(body),
    }
}

/// The adjacencies of a sequence, as the cells that spell them.
pub open spec fn adjacency_cells(v: Seq<Adjacency>) -> Seq<AdjacencyCells> {
    Seq::new(v.len(), |i: int| v[i]@.as_cells())
}

/// The rank of an adjacency kind.
pub fn adjacency_rank(kind: AdjacencyKind) -> (r: u8)
    ensures
        r == kind.rank(),
{
    match kind {
        AdjacencyKind::Land => 0,
        AdjacencyKind::River => 1,
        AdjacencyKind::LargeRiver => 2,
        AdjacencyKind::Sea => 3,
        AdjacencyKind::Impassable => 4,
    }
}

fn zip_position(x: Option<u32>, y: Option<u32>) -> (r: Option<[u32; 2]>)
    ensures
        match r {
            Some(p) => zipped(
                match x {
                    Some(x) => Some(x as nat),
                    None => None,
                },
                match y {
                    Some(y) => Some(y as nat),
                    None => None,
                },
            ) == Some(p@),
            None => zipped(
                match x {
                    Some(x) => Some(x as nat),
                    None => None,
                },
                match y {
                    Some(y) => Some(y as nat),
                    None => None,
                },
            ) is None,
        },
{
    match (x, y) {
        (Some(x), Some(y)) => {
            let p: [u32; 2] = [x, y];
            assert(p@ =~= seq![x, y]);
            Some(p)
        },
        _ => None,
    }
}

impl Adjacency {
    /// Another adjacency that holds the same.
    pub fn duplicate(&self) -> (r: Adjacency)
        ensures
            r@ == self@,
    {
        Adjacency {
            from_id: self.from_id,
            to_id: self.to_id,
            kind: self.kind,
            through: self.through,
            start: self.start,
            stop: self.stop,
            rule_name: self.rule_name.clone(),
            comment: self.comment.clone(),
        }
    }

    /// Reads an adjacency from the cells of a record.
    pub fn deserialize_record(record: &RawRecord) -> (r: Result<Adjacency, CsvError>)
        ensures
            match r {
                Ok(d) => AdjacencyView::parsed(record@.fields) == Ok::<AdjacencyCells, Fault>(
                    d@.as_cells(),
                ),
                Err(e) => AdjacencyView::parsed(record@.fields) is Err && e@ == located(
                    AdjacencyView::parsed(record@.fields)->Err_0,
                    record.position,
                ),
            },
    {
        match Adjacency::parse_cells(record) {
            Ok(d) => Ok(d),
            Err(e) => Err(locate(e, record.position)),
        }
    }

    fn parse_cells(record: &RawRecord) -> (r: Result<Adjacency, CsvParseError>)
        ensures
            match r {
                Ok(d) => AdjacencyView::parsed(record@.fields) == Ok::<AdjacencyCells, Fault>(
                    d@.as_cells(),
                ),
                Err(e) => AdjacencyView::parsed(record@.fields) == Err::<AdjacencyCells, Fault>(e@),
            },
    {
        let from_id = parse_u32_field(cell(record, 0))?;
        let to_id = parse_u32_field(cell(record, 1))?;
        let kind = parse_adjacency_kind_field(cell(record, 2))?;
        let through = parse_num_field(cell(record, 3))?;
        let start_x = parse_num_field(cell(record, 4))?;
        let start_y = parse_num_field(cell(record, 5))?;
        let stop_x = parse_num_field(cell(record, 6))?;
        let stop_y = parse_num_field(cell(record, 7))?;
        let rule_name = match cell(record, 8) {
            Some(s) => s.to_owned(),
            None => String::new(),
        };
        let comment = match cell(record, 9) {
            Some(s) => s.to_owned(),
            None => String::new(),
        };
        Ok(
            Adjacency {
                from_id,
                to_id,
                kind,
                through,
                start: zip_position(start_x, start_y),
                stop: zip_position(stop_x, stop_y),
                rule_name,
                comment,
            },
        )
    }

    /// The cells of this adjacency.
    pub fn serialize_record(&self) -> (r: Vec<String>)
        ensures
            texts(r@) == self@.cells(),
    {
        let r = vec![
            decimal_string(self.from_id as u64),
            decimal_string(self.to_id as u64),
            self.kind.to_str().to_owned(),
            stringify_maybe_num(self.through),
            stringify_maybe_pos(self.start),
            stringify_maybe_pos(self.stop),
            self.rule_name.clone(),
            self.comment.clone(),
        ];
        proof {
            assert(texts(r@) =~= self@.cells());
        }
        r
    }

    /// Whether this adjacency comes before another or with it: the rule
    /// name decides, then the comment, then the kind.
    pub fn le(&self, other: &Adjacency) -> (r: bool)
        ensures
            r == self@.le(other@),
    {
        if !str_equal(self.rule_name.as_str(), other.rule_name.as_str()) {
            str_le(self.rule_name.as_str(), other.rule_name.as_str())
        } else if !str_equal(self.comment.as_str(), other.comment.as_str()) {
            str_le(self.comment.as_str(), other.comment.as_str())
        } else {
            adjacency_rank(self.kind) <= adjacency_rank(other.kind)
        }
    }

    /// Reads the adjacencies from the records of a table: the first record
    /// is the header, the last one the footer, each other one an
    /// adjacency.
    pub fn from_records(records: Vec<RawRecord>) -> (r: Result<Vec<Adjacency>, CsvError>)
        ensures
            match r {
                Ok(v) => adjacency_table(record_views(records@)) == Ok::<
                    Seq<AdjacencyCells>,
                    TableFault,
                >(adjacency_cells(v@)),
                Err(e) => adjacency_table(record_views(records@)) == Err::<
                    Seq<AdjacencyCells>,
                    TableFault,
                >(e@),
            },
    {
        let header = vec![
            "From",
            "To",
            "Type",
            "Through",
            "start_x",
            "start_y",
            "stop_x",
            "stop_y",
            "adjacency_rule_name",
            "Comment",
        ];
        let footer = vec!["-1", "-1", "", "-1", "-1", "-1", "-1", "-1", "-1"];
        proof {
            assert(slice_texts(header@) =~= adjacency_header());
            assert(slice_texts(footer@) =~= adjacency_footer());
        }
        let body = match strip_frame(records, Some(&header), Some(&footer)) {
            Ok(body) => body,
            Err(e) => { return Err(e); },
        };
        let mut out: Vec<Adjacency> = Vec::new();
        let mut i: usize = 0;
        proof {
            assert(record_views(body@).take(0) =~= Seq::empty());
            assert(adjacency_cells(out@) =~= Seq::empty());
        }
        while i < body.len()
            invariant
                i <= body@.len(),
                unframed(
                    record_views(records@),
                    Some(adjacency_header()),
                    Some(adjacency_footer()),
                ) == Ok::<Seq<RawRecordView>, TableFault>(record_views(body@)),
                parsed_adjacencies(record_views(body@).take(i as int)) == Ok::<
                    Seq<AdjacencyCells>,
                    TableFault,
                >(adjacency_cells(out@)),
            decreases body@.len() - i,
        {
            proof {
                let all = record_views(body@);
                assert(all.take(i as int + 1).drop_last() =~= all.take(i as int));
                assert(all.take(i as int + 1).last() == body@[i as int]@);
                assert(body@[i as int]@.position == body@[i as int].position);
            }
            match Adjacency::deserialize_record(&body[i]) {
                Ok(d) => {
                    let ghost before = adjacency_cells(out@);
                    out.push(d);
                    proof {
                        assert(adjacency_cells(out@) =~= before.push(d@.as_cells()));
                    }
                },
                Err(e) => {
                    proof {
                        lemma_adjacencies_fail(record_views(body@), i as int + 1);
                    }
                    return Err(e);
                },
            }
            i += 1;
        }
        proof {
            assert(record_views(body@).take(body@.len() as int) =~= record_views(body@));
        }
        Ok(out)
    }

    /// Reads the adjacencies from the bytes of a table file.
    pub fn read_records(bytes: &[u8]) -> (r: Result<Vec<Adjacency>, CsvError>)
        ensures
            match r {
                Ok(v) => csv_records(bytes@) is Some && adjacency_table(
                    csv_records(bytes@).unwrap(),
                ) == Ok::<Seq<AdjacencyCells>, TableFault>(adjacency_cells(v@)),
                Err(e) => match csv_records(bytes@) {
                    Some(records) => adjacency_table(records) == Err::<
                        Seq<AdjacencyCells>,
                        TableFault,
                    >(e@),
                    None => e@ == TableFault::Inner,
                },
            },
    {
        match read_raw_records(bytes) {
            Ok(records) => Adjacency::from_records(records),
            Err(e) => Err(CsvError::Inner(e)),
        }
    }

    /// The records of an adjacency table: the header, the adjacencies,
    /// then the footer.
    pub fn to_records(entries: &Vec<Adjacency>) -> (rows: Vec<Vec<String>>)
        ensures
            rows@.len() == entries@.len() + 2,
            texts(rows@[0]@) == adjacency_header(),
            texts(rows@[entries@.len() as int + 1]@) == adjacency_footer(),
            forall|i: int| 0 <= i < entries@.len() ==> texts(#[trigger] rows@[i + 1]@) == entries@[i]@.cells(),
    {
        let header = vec![
            "From".to_owned(),
            "To".to_owned(),
            "Type".to_owned(),
            "Through".to_owned(),
            "start_x".to_owned(),
            "start_y".to_owned(),
            "stop_x".to_owned(),
            "stop_y".to_owned(),
            "adjacency_rule_name".to_owned(),
            "Comment".to_owned(),
        ];
        let footer = vec![
            "-1".to_owned(),
            "-1".to_owned(),
            "".to_owned(),
            "-1".to_owned(),
            "-1".to_owned(),
            "-1".to_owned(),
            "-1".to_owned(),
            "-1".to_owned(),
            "-1".to_owned(),
        ];
        proof {
            assert(texts(header@) =~= adjacency_header());
            assert(texts(footer@) =~= adjacency_footer());
        }
        let mut rows: Vec<Vec<String>> = Vec::new();
        rows.push(header);
        let mut i: usize = 0;
        while i < entries.len()
            invariant
                i <= entries@.len(),
                rows@.len() == i + 1,
                texts(rows@[0]@) == adjacency_header(),
                forall|j: int| 0 <= j < i ==> texts(#[trigger] rows@[j + 1]@) == entries@[j]@.cells(),
            decreases entries@.len() - i,
        {
            rows.push(entries[i].serialize_record());
            i += 1;
        }
        rows.push(footer);
        rows
    }

    /// The bytes of an adjacency table file: what the csv crate writes for
    /// the header, the adjacencies and the footer.
    pub fn write_records(entries: &Vec<Adjacency>) -> (r: Result<Vec<u8>, CsvError>)
        ensures
            match r {
                Ok(bytes) => csv_bytes(adjacency_rows(crate::bridge::adjacency_views(entries@)))
                    == Some(bytes@),
                Err(e) => csv_bytes(adjacency_rows(crate::bridge::adjacency_views(entries@)))
                    is None && e@ == TableFault::Inner,
            },
    {
        let rows = Adjacency::to_records(entries);
        proof {
            let want = adjacency_rows(crate::bridge::adjacency_views(entries@));
            assert forall|i: int| 0 <= i < want.len() implies row_texts(rows@)[i] == want[i] by {
                if 0 < i <= entries@.len() {
                    assert(texts(rows@[i - 1 + 1]@) == entries@[i - 1]@.cells());
                }
            }
            assert(row_texts(rows@) =~= want);
        }
        match write_raw_records(&rows) {
            Ok(bytes) => Ok(bytes),
            Err(e) => Err(CsvError::Inner(e)),
        }
    }
}

/// Once a record fails, the table fails with it.
proof fn lemma_adjacencies_fail(records: Seq<RawRecordView>, n: int)
    requires
        0 < n <= records.len(),
        parsed_adjacencies(records.take(n)) is Err,
    ensures
        parsed_adjacencies(records) == parsed_adjacencies(records.take(n)),
    decreases records.len() - n,
{
    if n < records.len() {
        assert(records.take(n + 1).drop_last() =~= records.take(n));
        lemma_adjacencies_fail(records, n + 1);
    } else {
        assert(records.take(n) =~= records);
    }
}

/// Whether each definition of a sequence comes before the next or with it.
pub open spec fn definitions_sorted(s: Seq<DefinitionView>) -> bool {
    forall|i: int| 0 <= i < s.len() - 1 ==> (#[trigger] s[i]).le(s[i + 1])
}

/// Whether each adjacency of a sequence comes before the next or with it.
pub open spec fn adjacencies_sorted(s: Seq<AdjacencyView>) -> bool {
    forall|i: int| 0 <= i < s.len() - 1 ==> (#[trigger] s[i]).le(s[i + 1])
}

/// Of two definitions one comes before the other or with it.
pub proof fn lemma_definition_le_total(a: DefinitionView, b: DefinitionView)
    ensures
        a.le(b) || b.le(a),
{
    lemma_text_le_total(a.terrain, b.terrain);
}

/// What comes before a definition that comes before another comes before
/// that other.
pub proof fn lemma_definition_le_trans(a: DefinitionView, b: DefinitionView, c: DefinitionView)
    requires
        a.le(b),
        b.le(c),
    ensures
        a.le(c),
{
    if a.kind == b.kind && b.kind == c.kind && a.continent == b.continent && b.continent
        == c.continent {
        lemma_text_le_trans(a.terrain, b.terrain, c.terrain);
    }
}

/// In a sorted sequence every definition comes before those behind it.
pub proof fn lemma_sorted_pairs(s: Seq<DefinitionView>, i: int, j: int)
    requires
        definitions_sorted(s),
        0 <= i < j < s.len(),
    ensures
        s[i].le(s[j]),
    decreases j - i,
{
    if i + 1 < j {
        lemma_sorted_pairs(s, i, j - 1);
        assert(s[j - 1].le(s[j - 1 + 1]));
        lemma_definition_le_trans(s[i], s[j - 1], s[j]);
    } else {
        assert(s[i].le(s[i + 1]));
    }
}

/// Of two adjacencies one comes before the other or with it.
pub proof fn lemma_adjacency_le_total(a: AdjacencyView, b: AdjacencyView)
    ensures
        a.le(b) || b.le(a),
{
    lemma_text_le_total(a.rule_name, b.rule_name);
    lemma_text_le_total(a.comment, b.comment);
}

/// Puts a definition into a sorted sequence, behind those that come
/// before it or with it.
pub fn insert_definition(sorted: &mut Vec<Definition>, d: Definition) -> (at: usize)
    requires
        definitions_sorted(definition_views(old(sorted)@)),
    ensures
        at <= old(sorted)@.len(),
        final(sorted)@ == old(sorted)@.insert(at as int, d),
        definitions_sorted(definition_views(final(sorted)@)),
{
    let mut at: usize = 0;
    while at < sorted.len() && sorted[at].le(&d)
        invariant
            at <= sorted@.len(),
            sorted@ == old(sorted)@,
            forall|i: int| 0 <= i < at ==> (#[trigger] sorted@[i])@.le(d@),
        decreases sorted@.len() - at,
    {
        at += 1;
    }
    let ghost before = definition_views(sorted@);
    proof {
        if at < sorted@.len() {
            lemma_definition_le_total(sorted@[at as int]@, d@);
        }
    }
    sorted.insert(at, d);
    proof {
        let after = definition_views(sorted@);
        assert(after =~= before.insert(at as int, d@));
        assert forall|i: int| 0 <= i < after.len() - 1 implies (#[trigger] after[i]).le(
            after[i + 1],
        ) by {
            if i + 1 < at {
                assert(before[i].le(before[i + 1]));
            } else if i + 1 == at {
                assert(old(sorted)@[i]@.le(d@));
            } else if i == at {
            } else {
                assert(before[i - 1].le(before[i - 1 + 1]));
            }
        }
    }
    at
}

/// Puts an adjacency into a sorted sequence, behind those that come
/// before it or with it.
pub fn insert_adjacency(sorted: &mut Vec<Adjacency>, a: Adjacency) -> (at: usize)
    requires
        adjacencies_sorted(crate::bridge::adjacency_views(old(sorted)@)),
    ensures
        at <= old(sorted)@.len(),
        final(sorted)@ == old(sorted)@.insert(at as int, a),
        adjacencies_sorted(crate::bridge::adjacency_views(final(sorted)@)),
{
    let mut at: usize = 0;
    while at < sorted.len() && sorted[at].le(&a)
        invariant
            at <= sorted@.len(),
            sorted@ == old(sorted)@,
            forall|i: int| 0 <= i < at ==> (#[trigger] sorted@[i])@.le(a@),
        decreases sorted@.len() - at,
    {
        at += 1;
    }
    let ghost before = crate::bridge::adjacency_views(sorted@);
    proof {
        if at < sorted@.len() {
            lemma_adjacency_le_total(sorted@[at as int]@, a@);
        }
    }
    sorted.insert(at, a);
    proof {
        let after = crate::bridge::adjacency_views(sorted@);
        assert(after =~= before.insert(at as int, a@));
        assert forall|i: int| 0 <= i < after.len() - 1 implies (#[trigger] after[i]).le(
            after[i + 1],
        ) by {
            if i + 1 < at {
                assert(before[i].le(before[i + 1]));
            } else if i + 1 == at {
                assert(old(sorted)@[i]@.le(a@));
            } else if i == at {
            } else {
                assert(before[i - 1].le(before[i - 1 + 1]));
            }
        }
    }
    at
}

/// A cell read as a value of a kind that has a text form.
#[derive(Debug, Clone, Copy, PartialEq, Eq, PartialOrd, Ord, Hash, Default)]
pub struct Parsed<T>(pub T);

/// What can be read from a cell of a record.
pub trait ParseCsvField: Sized {
    /// Whether the cell spells the value.
    spec fn spelled(cell: Option<Seq<char>>, value: Self) -> bool;

    /// Why the cell spells no value, if it spells none.
    spec fn fault(cell: Option<Seq<char>>) -> Option<Fault>;

    fn parse_from(cell: Option<&str>) -> (r: Result<Self, CsvParseError>)
        ensures
            match r {
                Ok(v) => Self::fault(opt_text(cell)) is None && Self::spelled(opt_text(cell), v),
                Err(e) => Self::fault(opt_text(cell)) == Some(e@),
            },
    ;
}

/// The error of a reading, if it is one.
pub open spec fn fault_of<T>(r: Result<T, Fault>) -> Option<Fault> {
    match r {
        Ok(_) => None,
        Err(e) => Some(e),
    }
}

impl ParseCsvField for Parsed<u32> {
    open spec fn spelled(cell: Option<Seq<char>>, value: Parsed<u32>) -> bool {
        u32_cell(cell) == Ok::<nat, Fault>(value.0 as nat)
    }

    open spec fn fault(cell: Option<Seq<char>>) -> Option<Fault> {
        fault_of(u32_cell(cell))
    }

    fn parse_from(cell: Option<&str>) -> (r: Result<Parsed<u32>, CsvParseError>) {
        match parse_u32_field(cell) {
            Ok(v) => Ok(Parsed(v)),
            Err(e) => Err(e),
        }
    }
}

impl ParseCsvField for Parsed<u16> {
    open spec fn spelled(cell: Option<Seq<char>>, value: Parsed<u16>) -> bool {
        u16_cell(cell) == Ok::<nat, Fault>(value.0 as nat)
    }

    open spec fn fault(cell: Option<Seq<char>>) -> Option<Fault> {
        fault_of(u16_cell(cell))
    }

    fn parse_from(cell: Option<&str>) -> (r: Result<Parsed<u16>, CsvParseError>) {
        match parse_u16_field(cell) {
            Ok(v) => Ok(Parsed(v)),
            Err(e) => Err(e),
        }
    }
}

impl ParseCsvField for Parsed<u8> {
    open spec fn spelled(cell: Option<Seq<char>>, value: Parsed<u8>) -> bool {
        u8_cell(cell) == Ok::<nat, Fault>(value.0 as nat)
    }

    open spec fn fault(cell: Option<Seq<char>>) -> Option<Fault> {
        fault_of(u8_cell(cell))
    }

    fn parse_from(cell: Option<&str>) -> (r: Result<Parsed<u8>, CsvParseError>) {
        match parse_u8_field(cell) {
            Ok(v) => Ok(Parsed(v)),
            Err(e) => Err(e),
        }
    }
}

impl ParseCsvField for Parsed<bool> {
    open spec fn spelled(cell: Option<Seq<char>>, value: Parsed<bool>) -> bool {
        bool_cell(cell) == Ok::<bool, Fault>(value.0)
    }

    open spec fn fault(cell: Option<Seq<char>>) -> Option<Fault> {
        fault_of(bool_cell(cell))
    }

    fn parse_from(cell: Option<&str>) -> (r: Result<Parsed<bool>, CsvParseError>) {
        match parse_bool_field(cell) {
            Ok(v) => Ok(Parsed(v)),
            Err(e) => Err(e),
        }
    }
}

impl ParseCsvField for Parsed<Option<u32>> {
    open spec fn spelled(cell: Option<Seq<char>>, value: Parsed<Option<u32>>) -> bool {
        num_cell(cell) == Ok::<Option<nat>, Fault>(
            match value.0 {
                Some(n) => Some(n as nat),
                None => None,
            },
        )
    }

    open spec fn fault(cell: Option<Seq<char>>) -> Option<Fault> {
        fault_of(num_cell(cell))
    }

    fn parse_from(cell: Option<&str>) -> (r: Result<Parsed<Option<u32>>, CsvParseError>) {
        match parse_num_field(cell) {
            Ok(v) => Ok(Parsed(v)),
            Err(e) => Err(e),
        }
    }
}

impl ParseCsvField for Parsed<DefinitionKind> {
    open spec fn spelled(cell: Option<Seq<char>>, value: Parsed<DefinitionKind>) -> bool {
        definition_kind_cell(cell) == Ok::<DefinitionKind, Fault>(value.0)
    }

    open spec fn fault(cell: Option<Seq<char>>) -> Option<Fault> {
        fault_of(definition_kind_cell(cell))
    }

    fn parse_from(cell: Option<&str>) -> (r: Result<Parsed<DefinitionKind>, CsvParseError>) {
        match parse_definition_kind_field(cell) {
            Ok(v) => Ok(Parsed(v)),
            Err(e) => Err(e),
        }
    }
}

impl ParseCsvField for Parsed<AdjacencyKind> {
    open spec fn spelled(cell: Option<Seq<char>>, value: Parsed<AdjacencyKind>) -> bool {
        adjacency_kind_cell(cell) == Ok::<AdjacencyKind, Fault>(value.0)
    }

    open spec fn fault(cell: Option<Seq<char>>) -> Option<Fault> {
        fault_of(adjacency_kind_cell(cell))
    }

    fn parse_from(cell: Option<&str>) -> (r: Result<Parsed<AdjacencyKind>, CsvParseError>) {
        match parse_adjacency_kind_field(cell) {
            Ok(v) => Ok(Parsed(v)),
            Err(e) => Err(e),
        }
    }
}

impl ParseCsvField for String {
    open spec fn spelled(cell: Option<Seq<char>>, value: String) -> bool {
        text_cell(cell) == Ok::<Seq<char>, Fault>(value@)
    }

    open spec fn fault(cell: Option<Seq<char>>) -> Option<Fault> {
        fault_of(text_cell(cell))
    }

    fn parse_from(cell: Option<&str>) -> (r: Result<String, CsvParseError>) {
        parse_string_field(cell)
    }
}

impl<T: ParseCsvField> ParseCsvField for Option<T> {
    open spec fn spelled(cell: Option<Seq<char>>, value: Option<T>) -> bool {
        match value {
            Some(v) => cell is Some && T::spelled(cell, v),
            None => cell is None,
        }
    }

    open spec fn fault(cell: Option<Seq<char>>) -> Option<Fault> {
        if cell is Some {
            T::fault(cell)
        } else {
            None
        }
    }

    fn parse_from(cell: Option<&str>) -> (r: Result<Option<T>, CsvParseError>) {
        match cell {
            Some(s) => match T::parse_from(Some(s)) {
                Ok(v) => Ok(Some(v)),
                Err(e) => Err(e),
            },
            None => Ok(None),
        }
    }
}

/// Reads a cell as a value of the kind asked for.
pub fn parse_field<T: ParseCsvField>(cell: Option<&str>) -> (r: Result<T, CsvParseError>)
    ensures
        match r {
            Ok(v) => T::fault(opt_text(cell)) is None && T::spelled(opt_text(cell), v),
            Err(e) => T::fault(opt_text(cell)) == Some(e@),
        },
{
    T::parse_from(cell)
}

/// What can be read from the cells of a record.
pub trait ParseCsvRecord: Sized {
    /// Whether the cells spell the value.
    spec fn spelled(fields: Seq<Seq<char>>, value: Self) -> bool;

    /// Why the cells spell no value, if they spell none.
    spec fn fault(fields: Seq<Seq<char>>) -> Option<Fault>;

    fn parse_from(record: &RawRecord) -> (r: Result<Self, CsvParseError>)
        ensures
            match r {
                Ok(v) => Self::fault(record@.fields) is None && Self::spelled(record@.fields, v),
                Err(e) => Self::fault(record@.fields) == Some(e@),
            },
    ;
}

impl ParseCsvRecord for Definition {
    open spec fn spelled(fields: Seq<Seq<char>>, value: Definition) -> bool {
        DefinitionView::parsed(fields) == Ok::<DefinitionView, Fault>(value@)
    }

    open spec fn fault(fields: Seq<Seq<char>>) -> Option<Fault> {
        fault_of(DefinitionView::parsed(fields))
    }

    fn parse_from(record: &RawRecord) -> (r: Result<Definition, CsvParseError>) {
        Definition::parse_cells(record)
    }
}

impl ParseCsvRecord for Adjacency {
    open spec fn spelled(fields: Seq<Seq<char>>, value: Adjacency) -> bool {
        AdjacencyView::parsed(fields) == Ok::<AdjacencyCells, Fault>(value@.as_cells())
    }

    open spec fn fault(fields: Seq<Seq<char>>) -> Option<Fault> {
        fault_of(AdjacencyView::parsed(fields))
    }

    fn parse_from(record: &RawRecord) -> (r: Result<Adjacency, CsvParseError>) {
        Adjacency::parse_cells(record)
    }
}

/// Reads a record as a value of the kind asked for; an error gets the
/// position of the record, where that is known.
pub fn parse_record<T: ParseCsvRecord>(record: &RawRecord) -> (r: Result<T, CsvError>)
    ensures
        match r {
            Ok(v) => T::fault(record@.fields) is None && T::spelled(record@.fields, v),
            Err(e) => T::fault(record@.fields) is Some && e@ == located(
                T::fault(record@.fields).unwrap(),
                record.position,
            ),
        },
{
    match T::parse_from(record) {
        Ok(v) => Ok(v),
        Err(e) => Err(locate(e, record.position)),
    }
}

/// A row of a table file: it can be read from a record and written to
/// one.
pub trait ParseCsv: ParseCsvRecord {
    /// The cells of the row.
    spec fn row_cells(&self) -> Seq<Seq<char>>;

    fn deserialize_record(record: &RawRecord) -> (r: Result<Self, CsvError>)
        ensures
            match r {
                Ok(v) => Self::fault(record@.fields) is None && Self::spelled(record@.fields, v),
                Err(e) => Self::fault(record@.fields) is Some && e@ == located(
                    Self::fault(record@.fields).unwrap(),
                    record.position,
                ),
            },
    ;

    fn serialize_record(&self) -> (r: Vec<String>)
        ensures
            texts(r@) == self.row_cells(),
    ;
}

impl ParseCsv for Definition {
    open spec fn row_cells(&self) -> Seq<Seq<char>> {
        self@.cells()
    }

    fn deserialize_record(record: &RawRecord) -> (r: Result<Definition, CsvError>) {
        parse_record::<Definition>(record)
    }

    fn serialize_record(&self) -> (r: Vec<String>) {
        Definition::serialize_record(self)
    }
}

impl ParseCsv for Adjacency {
    open spec fn row_cells(&self) -> Seq<Seq<char>> {
        self@.cells()
    }

    fn deserialize_record(record: &RawRecord) -> (r: Result<Adjacency, CsvError>) {
        parse_record::<Adjacency>(record)
    }

    fn serialize_record(&self) -> (r: Vec<String>) {
        Adjacency::serialize_record(self)
    }
}

/// The records of a definition table: the header, then the cells of each
/// definition.
pub open spec fn definition_rows(entries: Seq<DefinitionView>) -> Seq<Seq<Seq<char>>> {
    Seq::new(
        entries.len() + 1,
        |i: int|
            if i == 0 {
                definition_header()
            } else {
                entries[i - 1].cells()
            },
    )
}

/// The records of an adjacency table: the header, the cells of each
/// adjacency, then the footer.
pub open spec fn adjacency_rows(entries: Seq<AdjacencyView>) -> Seq<Seq<Seq<char>>> {
    Seq::new(
        entries.len() + 2,
        |i: int|
            if i == 0 {
                adjacency_header()
            } else if i <= entries.len() {
                entries[i - 1].cells()
            } else {
                adjacency_footer()
            },
    )
}

/// The rank of a definition kind.
pub fn definition_rank(kind: DefinitionKind) -> (r: u8)
    ensures
        r == kind.rank(),
{
    match kind {
        DefinitionKind::Land => 0,
        DefinitionKind::Sea => 1,
        DefinitionKind::Lake => 2,
    }
}

/// Once a record fails, the table fails with it.
proof fn lemma_definitions_fail(records: Seq<RawRecordView>, n: int)
    requires
        0 < n <= records.len(),
        parsed_definitions(records.take(n)) is Err,
    ensures
        parsed_definitions(records) == parsed_definitions(records.take(n)),
    decreases records.len() - n,
{
    if n < records.len() {
        assert(records.take(n + 1).drop_last() =~= records.take(n));
        lemma_definitions_fail(records, n + 1);
    } else {
        assert(records.take(n) =~= records);
    }
}

} // verus!
