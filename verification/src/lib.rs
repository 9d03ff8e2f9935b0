//! Single-pass profiling of newline-delimited JSON.
//!
//! [`stats`] counts lines, records, top level keys, line lengths and the
//! values of chosen field paths; [`schema`] walks the shape of every record.
//! Both are specified by what they find in a sequence of lines ([`summary`],
//! [`walk`]). [`path`] is the field selector; [`json`], [`grammar`],
//! [`number`], [`render`], [`lines`], [`hist`], [`table`] and [`text`] are the
//! primitives below.
//!
//! [`laws`] states what holds of every pass, [`counting`] what its counters
//! count, [`depth`] what a deeper walk adds, and [`agreement`] that the two kinds
//! of pass say the same of a path. [`members`] and [`printed`] state what the
//! machine-readable and the human readable reports say of a pass. [`selection`]
//! states what paths select, [`spelling`] how the text of a path and its steps
//! correspond, [`syntax`] what JSON documents look like, and [`roundtrip`] that
//! rendered JSON is read back.

pub mod agreement;
pub mod counting;
pub mod depth;
pub mod field;
pub mod grammar;
pub mod hist;
pub mod json;
pub mod keys;
pub mod laws;
pub mod lines;
pub mod members;
pub mod number;
pub mod path;
pub mod printed;
pub mod ratio;
pub mod render;
pub mod report;
pub mod roundtrip;
pub mod schema;
pub mod schema_report;
pub mod selection;
pub mod spelling;
pub mod stats;
pub mod stats_json;
pub mod stats_report;
pub mod summary;
pub mod syntax;
pub mod table;
pub mod text;
pub mod walk;

pub use field::FieldStats;
pub use keys::KeyStat;
pub use path::{FieldPath, PathError, Segment};
pub use schema::{PathStat, Schema, SchemaOptions};
pub use stats::{Issue, Stats, StatsOptions};
