//! Field extraction from lines of text, in the manner of `cut`: a selector
//! such as `1,3-5,-1` names fields by position (negative positions count
//! from the end of the line), in any order and with repeats, and each line
//! is cut on whitespace or on a literal string.
pub mod failure;
pub mod job;
pub mod laws;
pub mod selector;
pub mod split;
mod text;

pub use failure::{muffle_epipe, record_failure, RunError};
pub use job::{assemble_job, field_index, CutJob};
pub use selector::{field_parser, FieldRange, FieldSelector, ParseError};
pub use split::Delimiter;
