use vstd::prelude::*;

use crate::error::CsvError;
use crate::table::{rows_fit, CSVFile};

verus! {

#[verifier::external_type_specification]
#[verifier::external_body]
pub struct ExCsvError(csv::Error);

/// What the csv crate reads from `text` with its first record as the header:
/// the header and the data records, or `None` when the text is malformed.
pub uninterp spec fn csv_read(text: Seq<u8>) -> Option<(Seq<Seq<char>>, Seq<Seq<Seq<char>>>)>;

/// The bytes the csv crate writes for the header record followed by the rows.
pub uninterp spec fn csv_written(header: Seq<Seq<char>>, rows: Seq<Seq<Seq<char>>>) -> Seq<u8>;

/// Relies on csv::ReaderBuilder (headers on) and csv::Reader::headers / records:
/// the header and the records that the text holds, or the crate's error.
#[verifier::external_body]
fn read_records(text: &[u8]) -> (r: Result<(Vec<String>, Vec<Vec<String>>), csv::Error>)
    ensures
        r is Ok <==> csv_read(text@) is Some,
        r matches Ok((h, rows)) ==> csv_read(text@) == Some((h.deep_view(), rows.deep_view())),
{
    let mut rdr = csv::ReaderBuilder::new().has_headers(true).from_reader(text);
    let header: Vec<String> = rdr.headers()?.iter().map(String::from).collect();
    let mut rows: Vec<Vec<String>> = Vec::new();
    for record in rdr.records() {
        rows.push(record?.iter().map(String::from).collect());
    }
    Ok((header, rows))
}

/// Relies on csv::Error's `Display`: a message for a read error.
#[verifier::external_body]
fn error_message(e: &csv::Error) -> String {
    e.to_string()
}

/// Relies on csv::Writer::write_record and csv::Writer::into_inner, writing
/// into memory: the header record, then each row, quoted as the format asks.
/// Into a `Vec` the writer fails only when a record's field count differs from
/// the first record's, so records as wide as the header are always written.
#[verifier::external_body]
fn write_records(header: &Vec<String>, rows: &Vec<Vec<String>>) -> (r: Option<Vec<u8>>)
    ensures
        r matches Some(b) ==> b@ == csv_written(header.deep_view(), rows.deep_view()),
        rows_fit(header.deep_view(), rows.deep_view()) ==> r is Some,
{
    let mut wtr = csv::Writer::from_writer(Vec::new());
    wtr.write_record(header).ok()?;
    for row in rows {
        wtr.write_record(row).ok()?;
    }
    wtr.into_inner().ok()
}

impl CSVFile {
    /// Loads a table from delimited text whose first record is the header.
    /// Fails with `Parse` when the text is malformed or a record's width
    /// differs from the header's.
    pub fn read(text: &[u8]) -> (r: Result<CSVFile, CsvError>)
        ensures
            r is Ok <==> (csv_read(text@) matches Some(parsed) && rows_fit(parsed.0, parsed.1)),
            r matches Ok(t) ==> csv_read(text@) == Some((t.header_view(), t.rows_view())) && t.wf(),
            r matches Err(e) ==> e is Parse,
    {
        match read_records(text) {
            Ok((header, rows)) => CSVFile::from_records(header, rows),
            Err(e) => Err(CsvError::Parse { message: error_message(&e) }),
        }
    }

    /// The table as delimited text: the header record, then every row.
    /// Succeeds on every well-formed table; `Io` only where the writer fails.
    pub fn write_bytes(&self) -> (r: Result<Vec<u8>, CsvError>)
        ensures
            self.wf() ==> r is Ok,
            r matches Ok(b) ==> b@ == csv_written(self.header_view(), self.rows_view()),
            r matches Err(e) ==> e is Io,
    {
        match write_records(self.header(), self.rows()) {
            Some(b) => Ok(b),
            None => Err(CsvError::Io { message: String::from_str("the delimited-text writer failed") }),
        }
    }
}

} // verus!
