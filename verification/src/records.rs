//! Reading and writing the records of a table file, and reading the cells
//! of a record.
use vstd::prelude::*;
use crate::kinds::ParseError;
use crate::text::{ascii_lower, ascii_lowercase, parse_u64, str_equal, trim, trimmed, unsigned_of};

verus! {

/// The error of the csv crate.
#[verifier::external_type_specification]
#[verifier::external_body]
pub struct ExCsvError(csv::Error);

/// A record of a table file: its cells, and where it stood in the file
/// (line, byte and number), where that is known.
#[derive(Debug, Clone)]
pub struct RawRecord {
    pub fields: Vec<String>,
    pub position: Option<(u64, u64, u64)>,
}

/// A record as a value.
pub struct RawRecordView {
    pub fields: Seq<Seq<char>>,
    pub position: Option<(u64, u64, u64)>,
}

/// The texts of a sequence of strings.
pub open spec fn texts(v: Seq<String>) -> Seq<Seq<char>> {
    Seq::new(v.len(), |i: int| v[i]@)
}

/// The texts of a sequence of string slices.
pub open spec fn slice_texts(v: Seq<&'static str>) -> Seq<Seq<char>> {
    Seq::new(v.len(), |i: int| v[i]@)
}

impl View for RawRecord {
    type V = RawRecordView;

    open spec fn view(&self) -> RawRecordView {
        RawRecordView { fields: texts(self.fields@), position: self.position }
    }
}

/// The records of a sequence, as values.
pub open spec fn record_views(v: Seq<RawRecord>) -> Seq<RawRecordView> {
    Seq::new(v.len(), |i: int| v[i]@)
}

/// The records that the csv crate reads from the bytes of a table file
/// (cells parted by `;`, lines by CR LF, `#` for comments, `"` for quotes,
/// no doubled quotes, cells trimmed, no header line, any number of cells
/// in a record), or none where it reports an error.
pub uninterp spec fn csv_records(bytes: Seq<u8>) -> Option<Seq<RawRecordView>>;

/// `ReaderBuilder::from_reader` and `Reader::records` of the csv crate,
/// with the settings of the table files: gives the records that the crate
/// reads, each with its position, or the crate's error.
#[verifier::external_body]
pub(crate) fn read_raw_records(bytes: &[u8]) -> (r: Result<Vec<RawRecord>, csv::Error>)
    ensures
        match r {
            Ok(v) => csv_records(bytes@) == Some(record_views(v@)),
            Err(_) => csv_records(bytes@) is None,
        },
{
    let mut out = Vec::new();
    let mut reader = csv::ReaderBuilder::new().delimiter(b';').terminator(csv::Terminator::CRLF)
        .comment(Some(b'#')).quote(b'"').double_quote(false).trim(csv::Trim::All)
        .has_headers(false).flexible(true).from_reader(bytes);
    for record in reader.records() {
        let record = record?;
        let position = record.position().map(|p| (p.line(), p.byte(), p.record()));
        out.push(RawRecord { fields: record.iter().map(str::to_owned).collect(), position });
    }
    Ok(out)
}

/// The bytes that the csv crate writes for records (cells parted by `;`,
/// lines by CR LF, quotes where they are needed), or none where it reports
/// an error.
pub uninterp spec fn csv_bytes(records: Seq<Seq<Seq<char>>>) -> Option<Seq<u8>>;

/// The texts of each record of a sequence.
pub open spec fn row_texts(rows: Seq<Vec<String>>) -> Seq<Seq<Seq<char>>> {
    Seq::new(rows.len(), |i: int| texts(rows[i]@))
}

/// `WriterBuilder::from_writer` and `Writer::write_record` of the csv
/// crate, with the settings of the table files: gives the bytes that the
/// crate writes for the records, or the crate's error.
#[verifier::external_body]
pub(crate) fn write_raw_records(rows: &Vec<Vec<String>>) -> (r: Result<Vec<u8>, csv::Error>)
    ensures
        match r {
            Ok(v) => csv_bytes(row_texts(rows@)) == Some(v@),
            Err(_) => csv_bytes(row_texts(rows@)) is None,
        },
{
    let mut writer = csv::WriterBuilder::new().delimiter(b';').terminator(csv::Terminator::CRLF)
        .comment(Some(b'#')).quote(b'"').double_quote(false)
        .quote_style(csv::QuoteStyle::Necessary).has_headers(false).flexible(true)
        .from_writer(Vec::new());
    for row in rows {
        writer.write_record(row)?;
    }
    writer.into_inner().map_err(|e| csv::Error::from(e.into_error()))
}

/// Why a cell could not be read: it was not there, or it did not spell a
/// value of the kind named.
#[derive(Debug, Clone, Copy)]
pub enum CsvParseError {
    ParsingFieldFailed(&'static str, ParseError),
    IncorrectColumnCount(&'static str),
}

/// The error of a cell as a value.
pub enum Fault {
    Field(Seq<char>, ParseError),
    Column(Seq<char>),
}

impl View for CsvParseError {
    type V = Fault;

    open spec fn view(&self) -> Fault {
        match *self {
            CsvParseError::ParsingFieldFailed(label, e) => Fault::Field(label@, e),
            CsvParseError::IncorrectColumnCount(label) => Fault::Column(label@),
        }
    }
}

/// Why a table could not be read.
#[derive(Debug)]
pub enum CsvError {
    /// The csv crate failed on the bytes.
    Inner(csv::Error),
    /// The first record is not the header that the table asks for.
    InvalidHeaderRecord(Vec<String>),
    /// The last record is not the footer that the table asks for.
    InvalidFooterRecord(Vec<String>),
    /// A cell of the record at the position (line, byte, number) failed.
    ParseErrorAt(CsvParseError, (u64, u64, u64)),
    /// A cell of a record of unknown position failed.
    ParseError(CsvParseError),
}

/// The error of a table as a value.
pub enum TableFault {
    Inner,
    Header(Seq<Seq<char>>),
    Footer(Seq<Seq<char>>),
    At(Fault, (u64, u64, u64)),
    Cell(Fault),
}

impl View for CsvError {
    type V = TableFault;

    open spec fn view(&self) -> TableFault {
        match *self {
            CsvError::Inner(_) => TableFault::Inner,
            CsvError::InvalidHeaderRecord(found) => TableFault::Header(texts(found@)),
            CsvError::InvalidFooterRecord(found) => TableFault::Footer(texts(found@)),
            CsvError::ParseErrorAt(e, position) => TableFault::At(e@, position),
            CsvError::ParseError(e) => TableFault::Cell(e@),
        }
    }
}

/// The error of a cell with the position of its record, where that is
/// known.
pub open spec fn located(fault: Fault, position: Option<(u64, u64, u64)>) -> TableFault {
    match position {
        Some(p) => TableFault::At(fault, p),
        None => TableFault::Cell(fault),
    }
}

/// Gives the error of a cell the position of its record.
pub fn locate(e: CsvParseError, position: Option<(u64, u64, u64)>) -> (r: CsvError)
    ensures
        r@ == located(e@, position),
{
    match position {
        Some(p) => CsvError::ParseErrorAt(e, p),
        None => CsvError::ParseError(e),
    }
}

/// The cell at a place of a record, if the record is that long.
pub open spec fn cell_at(fields: Seq<Seq<char>>, i: int) -> Option<Seq<char>> {
    if 0 <= i < fields.len() {
        Some(fields[i])
    } else {
        None
    }
}

/// The cell at a place of a record, if the record is that long.
pub fn cell(record: &RawRecord, i: usize) -> (r: Option<&str>)
    ensures
        match r {
            Some(s) => cell_at(record@.fields, i as int) == Some(s@),
            None => cell_at(record@.fields, i as int) is None,
        },
{
    if i < record.fields.len() {
        Some(record.fields[i].as_str())
    } else {
        None
    }
}

/// What reading a cell as a number up to `max` gives.
pub open spec fn number_cell(cell: Option<Seq<char>>, max: nat, label: Seq<char>) -> Result<
    nat,
    Fault,
> {
    match cell {
        None => Err(Fault::Column(label)),
        Some(s) => match unsigned_of(trimmed(s), max) {
            Some(n) => Ok(n),
            None => Err(Fault::Field(label, ParseError::ParseIntError)),
        },
    }
}

/// Growing the bound lets through what a smaller bound let through.
pub proof fn lemma_unsigned_bound(s: Seq<char>, small: nat, large: nat)
    requires
        small <= large,
    ensures
        unsigned_of(s, small) == match unsigned_of(s, large) {
            Some(n) => if n <= small {
                Some(n)
            } else {
                None
            },
            None => None,
        },
{
}

/// Reads a cell as a number up to `max`, without the white space at its
/// ends.
fn parse_number(cell: Option<&str>, max: u64, label: &'static str) -> (r: Result<
    u64,
    CsvParseError,
>)
    ensures
        match r {
            Ok(n) => n <= max && number_cell(
                match cell {
                    Some(s) => Some(s@),
                    None => None,
                },
                max as nat,
                label@,
            ) == Ok::<nat, Fault>(n as nat),
            Err(e) => number_cell(
                match cell {
                    Some(s) => Some(s@),
                    None => None,
                },
                max as nat,
                label@,
            ) == Err::<nat, Fault>(e@),
        },
{
    match cell {
        None => Err(CsvParseError::IncorrectColumnCount(label)),
        Some(s) => {
            let t = trim(s);
            proof {
                lemma_unsigned_bound(t@, max as nat, u64::MAX as nat);
            }
            match parse_u64(t) {
                Some(n) => if n <= max {
                    Ok(n)
                } else {
                    Err(CsvParseError::ParsingFieldFailed(label, ParseError::ParseIntError))
                },
                None => Err(CsvParseError::ParsingFieldFailed(label, ParseError::ParseIntError)),
            }
        },
    }
}

/// What reading a cell as a `u32` gives.
pub open spec fn u32_cell(cell: Option<Seq<char>>) -> Result<nat, Fault> {
    number_cell(cell, u32::MAX as nat, "u32"@)
}

/// What reading a cell as a `u16` gives.
pub open spec fn u16_cell(cell: Option<Seq<char>>) -> Result<nat, Fault> {
    number_cell(cell, u16::MAX as nat, "u16"@)
}

/// What reading a cell as a `u8` gives.
pub open spec fn u8_cell(cell: Option<Seq<char>>) -> Result<nat, Fault> {
    number_cell(cell, u8::MAX as nat, "u8"@)
}

/// The text of an optional string slice.
pub open spec fn opt_text(cell: Option<&str>) -> Option<Seq<char>> {
    match cell {
        Some(s) => Some(s@),
        None => None,
    }
}

/// Reads a cell as a `u32`.
pub fn parse_u32_field(cell: Option<&str>) -> (r: Result<u32, CsvParseError>)
    ensures
        match r {
            Ok(n) => u32_cell(opt_text(cell)) == Ok::<nat, Fault>(n as nat),
            Err(e) => u32_cell(opt_text(cell)) == Err::<nat, Fault>(e@),
        },
{
    match parse_number(cell, 0xffff_ffff, "u32") {
        Ok(n) => Ok(n as u32),
        Err(e) => Err(e),
    }
}

/// Reads a cell as a `u16`.
pub fn parse_u16_field(cell: Option<&str>) -> (r: Result<u16, CsvParseError>)
    ensures
        match r {
            Ok(n) => u16_cell(opt_text(cell)) == Ok::<nat, Fault>(n as nat),
            Err(e) => u16_cell(opt_text(cell)) == Err::<nat, Fault>(e@),
        },
{
    match parse_number(cell, 0xffff, "u16") {
        Ok(n) => Ok(n as u16),
        Err(e) => Err(e),
    }
}

/// Reads a cell as a `u8`.
pub fn parse_u8_field(cell: Option<&str>) -> (r: Result<u8, CsvParseError>)
    ensures
        match r {
            Ok(n) => u8_cell(opt_text(cell)) == Ok::<nat, Fault>(n as nat),
            Err(e) => u8_cell(opt_text(cell)) == Err::<nat, Fault>(e@),
        },
{
    match parse_number(cell, 0xff, "u8") {
        Ok(n) => Ok(n as u8),
        Err(e) => Err(e),
    }
}

/// What reading a cell as an optional number gives: an empty cell and `-1`
/// stand for none.
pub open spec fn num_cell(cell: Option<Seq<char>>) -> Result<Option<nat>, Fault> {
    match cell {
        None => Err(Fault::Column("Num"@)),
        Some(s) => {
            let t = trimmed(s);
            if t.len() == 0 || t == "-1"@ {
                Ok(None)
            } else {
                match unsigned_of(t, u32::MAX as nat) {
                    Some(n) => Ok(Some(n)),
                    None => Err(Fault::Field("Num"@, ParseError::ParseIntError)),
                }
            }
        },
    }
}

/// Reads a cell as an optional number: an empty cell and `-1` stand for
/// none.
pub fn parse_num_field(cell: Option<&str>) -> (r: Result<Option<u32>, CsvParseError>)
    ensures
        match r {
            Ok(Some(n)) => num_cell(opt_text(cell)) == Ok::<Option<nat>, Fault>(Some(n as nat)),
            Ok(None) => num_cell(opt_text(cell)) == Ok::<Option<nat>, Fault>(None),
            Err(e) => num_cell(opt_text(cell)) == Err::<Option<nat>, Fault>(e@),
        },
{
    match cell {
        None => Err(CsvParseError::IncorrectColumnCount("Num")),
        Some(s) => {
            let t = trim(s);
            proof {
                reveal_strlit("");
                assert(t@.len() == 0 <==> t@ == ""@) by {
                    if t@.len() == 0 {
                        assert(t@ =~= ""@);
                    }
                }
                lemma_unsigned_bound(t@, u32::MAX as nat, u64::MAX as nat);
            }
            if str_equal(t, "") || str_equal(t, "-1") {
                Ok(None)
            } else {
                match parse_u64(t) {
                    Some(n) => if n <= 0xffff_ffff {
                        Ok(Some(n as u32))
                    } else {
                        Err(CsvParseError::ParsingFieldFailed("Num", ParseError::ParseIntError))
                    },
                    None => Err(
                        CsvParseError::ParsingFieldFailed("Num", ParseError::ParseIntError),
                    ),
                }
            }
        },
    }
}

/// What reading a cell as a text gives.
pub open spec fn text_cell(cell: Option<Seq<char>>) -> Result<Seq<char>, Fault> {
    match cell {
        None => Err(Fault::Column("String"@)),
        Some(s) => Ok(s),
    }
}

/// Reads a cell as a text.
pub fn parse_string_field(cell: Option<&str>) -> (r: Result<String, CsvParseError>)
    ensures
        match r {
            Ok(s) => text_cell(opt_text(cell)) == Ok::<Seq<char>, Fault>(s@),
            Err(e) => text_cell(opt_text(cell)) == Err::<Seq<char>, Fault>(e@),
        },
{
    match cell {
        None => Err(CsvParseError::IncorrectColumnCount("String")),
        Some(s) => Ok(s.to_owned()),
    }
}

/// Whether a record holds a frame line, whatever the case of its letters:
/// cell by cell, as far as both go.
pub open spec fn frame_matches(fields: Seq<Seq<char>>, frame: Seq<Seq<char>>) -> bool {
    forall|i: int|
        0 <= i < fields.len() && i < frame.len() ==> ascii_lower(#[trigger] fields[i])
            == ascii_lower(frame[i])
}

/// Whether a record holds a frame line, whatever the case of its letters.
pub fn matches_frame(record: &RawRecord, frame: &Vec<&'static str>) -> (r: bool)
    ensures
        r == frame_matches(record@.fields, slice_texts(frame@)),
{
    let mut i: usize = 0;
    while i < record.fields.len() && i < frame.len()
        invariant
            forall|j: int|
                0 <= j < i ==> ascii_lower(#[trigger] record@.fields[j]) == ascii_lower(
                    slice_texts(frame@)[j],
                ),
        decreases record.fields@.len() - i,
    {
        let a = ascii_lowercase(record.fields[i].as_str());
        let b = ascii_lowercase(frame[i]);
        if !str_equal(a.as_str(), b.as_str()) {
            assert(record@.fields[i as int] == record.fields@[i as int]@);
            return false;
        }
        i += 1;
    }
    true
}

/// What is left of the records of a table without its frame: the first
/// record, where a header is asked for, and then the last, where a footer
/// is; or the error of the frame line that is not as asked.
pub open spec fn unframed(
    records: Seq<RawRecordView>,
    header: Option<Seq<Seq<char>>>,
    footer: Option<Seq<Seq<char>>>,
) -> Result<Seq<RawRecordView>, TableFault> {
    let headed = header is Some && records.len() > 0;
    let rest = if headed {
        records.skip(1)
    } else {
        records
    };
    let footed = footer is Some && rest.len() > 0;
    if headed && !frame_matches(records[0].fields, header.unwrap()) {
        Err(TableFault::Header(records[0].fields))
    } else if footed && !frame_matches(rest.last().fields, footer.unwrap()) {
        Err(TableFault::Footer(rest.last().fields))
    } else if footed {
        Ok(rest.drop_last())
    } else {
        Ok(rest)
    }
}

/// Takes the frame lines from the records of a table.
pub fn strip_frame(
    records: Vec<RawRecord>,
    header: Option<&Vec<&'static str>>,
    footer: Option<&Vec<&'static str>>,
) -> (r: Result<Vec<RawRecord>, CsvError>)
    ensures
        match r {
            Ok(v) => unframed(
                record_views(records@),
                match header {
                    Some(h) => Some(slice_texts(h@)),
                    None => None,
                },
                match footer {
                    Some(f) => Some(slice_texts(f@)),
                    None => None,
                },
            ) == Ok::<Seq<RawRecordView>, TableFault>(record_views(v@)),
            Err(e) => unframed(
                record_views(records@),
                match header {
                    Some(h) => Some(slice_texts(h@)),
                    None => None,
                },
                match footer {
                    Some(f) => Some(slice_texts(f@)),
                    None => None,
                },
            ) == Err::<Seq<RawRecordView>, TableFault>(e@),
        },
{
    let mut records = records;
    let ghost all = record_views(records@);
    if let Some(h) = header {
        if records.len() > 0 {
            let first = records.remove(0);
            proof {
                assert(record_views(records@) =~= all.skip(1));
                assert(first@ == all[0]);
            }
            if !matches_frame(&first, h) {
                return Err(CsvError::InvalidHeaderRecord(first.fields));
            }
        }
    }
    let ghost rest = record_views(records@);
    if let Some(f) = footer {
        if records.len() > 0 {
            let last = match records.pop() {
                Some(last) => last,
                None => RawRecord { fields: Vec::new(), position: None },
            };
            proof {
                assert(record_views(records@) =~= rest.drop_last());
                assert(last@ == rest.last());
            }
            if !matches_frame(&last, f) {
                return Err(CsvError::InvalidFooterRecord(last.fields));
            }
        }
    }
    Ok(records)
}

} // verus!
