//! Error kinds of the loading pipeline. Failures reported by outside
//! collaborators (the CSV reader, the database driver, the file system) are
//! carried as their rendered text.

use vstd::prelude::*;

verus! {

/// Everything the pipeline can fail with.
#[derive(Debug, Clone)]
pub enum LoaderError {
    /// A malformed row from the CSV source.
    CsvError(String),
    /// A failure reported by the database driver.
    DatabaseError(String),
    /// A failure of the underlying file or stream.
    IoError(String),
    /// A table name that fails validation.
    InvalidTableName(String),
    /// A row/column-count mismatch during inference.
    SchemaInferenceError(String),
    /// A row/column-count mismatch at encoding time.
    TypeConversionError(String),
    /// A batch whose retries are exhausted.
    BatchError { retries: usize, message: String },
    /// A failure to establish the database connection.
    ConnectionError(String),
    /// An invalid configuration input.
    ConfigError(String),
    /// A source file that cannot be opened.
    FileNotFound(String),
    /// A source with no rows to sample.
    EmptyFile,
}

} // verus!
