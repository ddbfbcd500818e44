//! The records a successful parse produces: metric samples and metadata
//! comments, together with the value representation of a sample.

use crate::labels::LabelList;
use vstd::prelude::*;

verus! {

/// The kind of a metadata comment. Only these two keywords are recognized;
/// any other keyword fails the comment parse entirely.
#[allow(non_camel_case_types)]
#[derive(Debug, Clone, Copy, PartialEq, Eq, Structural)]
pub enum CommentType {
    HELP,
    TYPE,
}

/// One `# HELP`/`# TYPE` metadata line: the metric name (possibly empty),
/// the comment kind, and the free text after the name (possibly empty).
#[derive(Debug, Clone, PartialEq, Eq)]
pub struct Comment {
    pub name: String,
    pub c_type: CommentType,
    pub text: String,
}

impl Comment {
    pub fn new(name: String, c_type: CommentType, text: String) -> (r: Comment)
        ensures
            r.name == name,
            r.c_type == c_type,
            r.text == text,
    {
        Comment { name, c_type, text }
    }
}

/// The mathematical face of a sample value: one of the two infinity
/// literals, or the characters of the numeric token itself.
pub enum SpecValue {
    PosInf,
    NegInf,
    Num(Seq<char>),
}

/// The value of a metric sample. The two infinity literals are recognized
/// as such; any other value is kept as the exact numeric token that was
/// consumed, for the caller to interpret as a 64-bit floating-point number.
#[derive(Debug, Clone, PartialEq, Eq)]
pub enum MetricValue {
    PosInf,
    NegInf,
    Num(String),
}

impl View for MetricValue {
    type V = SpecValue;

    open spec fn view(&self) -> SpecValue {
        match self {
            MetricValue::PosInf => SpecValue::PosInf,
            MetricValue::NegInf => SpecValue::NegInf,
            MetricValue::Num(raw) => SpecValue::Num(raw@),
        }
    }
}

/// One parsed metric observation: name, label set, mandatory value and
/// optional millisecond timestamp.
#[derive(Debug, Clone, PartialEq)]
pub struct SampleData {
    pub name: String,
    pub labels: LabelList,
    pub value: MetricValue,
    pub timestamp: Option<i64>,
}

impl SampleData {
    pub fn new(name: String, labels: LabelList, value: MetricValue, timestamp: Option<i64>) -> (r:
        SampleData)
        ensures
            r.name == name,
            r.labels == labels,
            r.value == value,
            r.timestamp == timestamp,
    {
        SampleData { name, labels, value, timestamp }
    }
}

} // verus!
