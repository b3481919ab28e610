//! Flattening of `key:value` tag lists into merged key/value mappings.
//!
//! A record carries a list of tags under the field `tags`. Flattening splits
//! each tag at its first colon, merges the values of equal keys in order of
//! occurrence, and stores the resulting mapping under the field `tag`.
//!
//! The library offers the flattening twice: as a native routine, verified
//! against its specification, and as a program run by an expression engine,
//! of which nothing is proved. A verified comparison tells whether the two
//! gave the same mapping.
//!
//! - `tag`: splitting one tag.
//! - `merge`: the merged mapping and its accumulator.
//! - `datum`: structured values and the fields of a record.
//! - `flatten`: the native routine.
//! - `engine`: the expression engine and the JSON reader, behind trusted
//!   items.
//! - `harness`: both paths on records and on JSON text, and their comparison.
//! - `laws`: what holds of every flattening.
//! - `corpus`, `search`: generated tag lists, and the search for one tag.

pub mod corpus;
pub mod datum;
pub mod engine;
pub mod error;
pub mod flatten;
pub mod harness;
pub mod laws;
pub mod merge;
pub mod search;
pub mod tag;

pub use datum::{Datum, DatumView};
pub use error::FlattenError;
pub use flatten::{flatten_record, flatten_tags};
pub use harness::{check_equivalence, flatten_json, outputs_agree, parse_record, Interpreter};
pub use merge::{MergedMapping, MergedValue};
pub use search::find_text;
pub use tag::{split_tag, TagParts};
