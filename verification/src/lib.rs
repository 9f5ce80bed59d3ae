//! A verified library for merging per-session exercise-activity tables,
//! normalizing their Buddhist-Era timestamps, and querying the result.

pub mod bins;
pub mod dates;
pub mod group;
pub mod merge;
pub mod months;
pub mod query;
pub mod record;
pub mod strings;
