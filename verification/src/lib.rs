//! A per-line decoder for the Prometheus text exposition format.
//!
//! One line of text is parsed into either a metric sample (name, labels,
//! value, optional timestamp) or a metadata comment (`# HELP`/`# TYPE`).
//! Failure to match the grammar is reported as `None`; no partial records
//! are ever produced.

pub mod labels;
pub mod line;
pub mod number;
pub mod records;
pub mod text;

pub use labels::LabelList;
pub use line::read_comment_line;
pub use line::read_label;
pub use line::read_sample_line;
pub use line::try_read_comment;
pub use line::try_read_sample;
pub use number::read_timestamp;
pub use number::read_value;
pub use records::Comment;
pub use records::CommentType;
pub use records::MetricValue;
pub use records::SampleData;
pub use text::is_metric_char;
pub use text::read_quoted_string;
pub use text::read_variable_name;
