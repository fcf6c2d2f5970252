//! Per-read quality, length and alignment metrics for sequencing data,
//! normalised into one record shape and summarised with exact statistics.

pub mod cli;
pub mod collection;
pub mod error;
pub mod extract;
pub mod formats;
pub mod metrics;
pub mod parse;
pub mod render;
pub mod stats;
pub mod text;
pub mod utils;

pub use cli::{Cli, Commands, ExtractArgs};
pub use collection::MetricsCollection;
pub use error::NanogetError;
pub use formats::FileType;
pub use metrics::{MetricsSummary, ReadMetrics, Timestamp};
pub use stats::StatsSummary;
