//! Chronological merge of timestamped log files.
//!
//! The crate decodes raw log file bytes into text lines (auto-detecting the
//! encoding from a leading byte-order mark), detects each file's timestamp
//! format from a fixed candidate table, filters to timestamped lines, and
//! merges several files into one stream ordered by timestamp.

pub mod timestamp;
pub mod formats;
pub mod utf8_line_reader;
pub mod log_file_reader;
pub mod merge;

pub use timestamp::Timestamp;
pub use utf8_line_reader::{Encoding, Utf8LineReader};
pub use log_file_reader::{LogFileReader, State};
pub use merge::{merge_logs, Record};
