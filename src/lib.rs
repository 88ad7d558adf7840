//! A sort-merge join of two streams of JSON object records (one record per
//! line), matched on one top-level field per stream.
//!
//! - `json`: the JSON value tree, its mathematical view, equality and copy.
//! - `render`: compact JSON text of a value.
//! - `merge`: key order of object members, well-formedness, deep merge.
//! - `record`: decoded lines as records, key extraction, errors.
//! - `join`: the engine that pairs each left record with the matching
//!   records of one right-hand block, replaying a block for repeated left
//!   keys.
//! - `laws`, `pairing`: properties of the join and of the merge, proved over
//!   the specs that the engine meets.

pub mod join;
pub mod json;
pub mod laws;
pub mod merge;
pub mod pairing;
pub mod record;
pub mod render;
