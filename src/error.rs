use vstd::prelude::*;

verus! {

/// The ways an operation on a table can fail.
#[derive(Debug)]
pub enum CsvError {
    /// A source or sink could not be opened, read or written.
    Io { message: String },
    /// The delimited text is malformed, or a record's field count differs
    /// from the header's.
    Parse { message: String },
    /// Two tables with different headers were merged.
    SchemaMismatch { expected: Vec<String>, found: Vec<String> },
    /// The sort key names no column of the header.
    ColumnNotFound { key: String },
    /// A command-line value names no known sort order or method.
    InvalidArgument { value: String },
    /// A cell of the key column is not a number under numerical comparison.
    ValueParse { row_index: usize, raw_value: String },
}

} // verus!
