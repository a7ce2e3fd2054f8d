//! In-memory CSV tables: loading, schema-checked merge, column-keyed sort and
//! serialization, with their contracts proved by Verus.
pub mod codec;
pub mod error;
pub mod laws;
pub mod order;
pub mod table;

pub use error::CsvError;
pub use order::{CSVSortMethod, CSVSortOrder};
pub use table::CSVFile;
