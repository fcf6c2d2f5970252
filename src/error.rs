//! Errors of the extraction pipeline.
use vstd::prelude::*;

verus! {

/// Why an extraction failed. Each variant carries a description of the
/// cause, such as the file path or the offending column.
#[derive(Debug)]
pub enum NanogetError {
    Io(String),
    Htslib(String),
    Csv(String),
    Json(String),
    FileNotFound(String),
    UnsupportedFormat(String),
    InvalidInput(String),
    ParseError(String),
    ProcessingError(String),
}

} // verus!
