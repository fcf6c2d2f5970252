//! The options of an extraction run.
use crate::formats::FileType;
use vstd::prelude::*;

verus! {

/// A command line: the command to run.
pub struct Cli {
    pub command: Commands,
}

/// The commands of the program.
pub enum Commands {
    /// Extract metrics from sequencing files
    Extract(ExtractArgs),
}

/// Options of an extraction.
pub struct ExtractArgs {
    /// Input files to process
    pub files: Vec<String>,
    /// Format of the input files
    pub file_type: FileType,
    /// Number of worker threads
    pub threads: usize,
    /// Output format (json, tsv)
    pub output_format: String,
    /// Output file; standard output when absent
    pub output: Option<String>,
    /// For summary tables: read type (1D, 2D, 1D2)
    pub read_type: String,
    /// Count reads per barcode
    pub barcoded: bool,
    /// Keep supplementary alignments
    pub keep_supplementary: bool,
    /// Process the files one at a time
    pub huge: bool,
    /// How to combine several files: simple or track
    pub combine: String,
    /// Dataset names for track mode
    pub names: Option<Vec<String>>,
}

/// The number of workers: one in `huge` mode, else the requested number
/// but at least one.
pub open spec fn workers_for(threads: usize, huge: bool) -> usize {
    if huge || threads == 0 {
        1
    } else {
        threads
    }
}

impl ExtractArgs {
    /// How many files are processed at once.
    pub fn worker_count(&self) -> (r: usize)
        ensures
            r == workers_for(self.threads, self.huge),
            r >= 1,
    {
        if self.huge || self.threads == 0 {
            1
        } else {
            self.threads
        }
    }
}

} // verus!
