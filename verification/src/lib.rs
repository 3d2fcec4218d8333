//! Fast, single-pass inspection of JSONL datasets.
//!
//! The crate is built around one constraint: a training set does not fit in memory, and you only
//! get to read it once. Every piece here is a streaming accumulator with a bounded footprint, and
//! every function states in its contract what it computes.
//!
//! * [`json`] - a strict JSON parser that reports the byte offset of whatever broke, and the
//!   writer that undoes it.
//! * [`lines`] - cutting a file into lines: CRLF, a byte order mark and a missing final newline
//!   are taken care of. [`record`] reads one line as a value.
//! * [`hist`] - a log-bucketed histogram, for percentiles without keeping the samples.
//! * [`rng`] - SplitMix64 plus reservoir sampling, for unbiased samples of a stream of unknown
//!   length.
//! * [`path`] - `a.b[].c` field paths.
//! * [`stats`] - the file health check.
//! * [`schema`] - path/type inference across records.
//! * [`cli`] and [`scan`] - the commands: what their arguments mean, and the pass over the file
//!   that each of them makes. [`requests`] states how each argument changes what is asked for.
//!
//! The rest serves these: [`text`], [`utf8`] and [`render`] for characters and reports,
//! [`rounding`] for the decimals in them, [`table`] and [`tally`] for counting by name.
//!
//! Proof functions whose names start with `law_` state what holds across functions.

pub mod cli;
pub mod hist;
pub mod json;
pub mod lines;
pub mod path;
pub mod record;
pub mod render;
pub mod requests;
pub mod rng;
pub mod rounding;
pub mod scan;
pub mod schema;
pub mod stats;
pub mod table;
pub mod tally;
pub mod text;
pub mod utf8;

pub use hist::Histogram;
pub use json::{parse, ParseError, Value};
pub use lines::{Line, LineReader};
pub use path::{FieldPath, PathError};
pub use rng::{Reservoir, SplitMix64};
pub use schema::{Schema, SchemaOptions};
pub use stats::{Stats, StatsOptions};
