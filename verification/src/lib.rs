//! Removes LCOV coverage entries for source lines marked with exclusion
//! comments, and reports the lines that remain uncovered.
//!
//! The library works on text in memory: the caller reads the LCOV report
//! and the source files that its `SF:` records name (see
//! [`lcov::source_paths`]) and hands their contents in as
//! [`lcov::SourceFile`] values.

pub mod cli;
pub mod entries;
pub mod lcov;
pub mod markers;
pub mod paths;
pub mod report;
pub mod text;

pub use cli::OutputMode;
pub use entries::{parse_brda_line, parse_da_line, parse_fn_line, parse_fnda_line};
pub use lcov::{
    filter_lcov, filter_lcov_records, process_record, process_unreadable_source_record,
    record_source_of, source_paths, split_records, ExclusionCache, RecordResult, SourceFile,
};
pub use markers::{compute_excluded_lines_from_content, Markers};
pub use report::{format_missing_lines, has_missing_lines, FULL_COVERAGE_MESSAGE};
