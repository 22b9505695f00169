//! A sorted-group streaming aggregation engine, verified with Verus.
//!
//! The engine consumes chunks of rows that are already ordered by a group key,
//! folds every maximal run of rows that share a key into one output row, and
//! emits those rows in batches of bounded size.
//!
//! - `chunk`: columnar chunks of nullable integers with a visibility mask.
//! - `agg`: aggregate calls (count, sum, min, max) and their running states.
//! - `grouper`: detection of the rows at which a key column changes.
//! - `runs`: the mathematical model of grouping, maximal runs of equal keys.
//! - `output`: what an aggregation outputs, as a function of its input rows.
//! - `driver`: the steps of a running aggregation and their invariant.
//! - `sort_agg`: the operator, over a whole input or chunk by chunk.
//! - `laws`: properties of the output, proved.
//!
//! Beside it stand a few smaller pieces of the surrounding system: id
//! generators (`id`), the shape of a recursive union plan node (`plan`), the
//! checks on a search-engine sink's settings (`es_config`) and on the meta
//! service's data directory (`data_directory`).
pub mod types;
pub mod chunk;
pub mod error;
pub mod agg;
pub mod grouper;
pub mod runs;
pub mod output;
pub mod driver;
pub mod sort_agg;
pub mod laws;
pub mod id;
pub mod plan;
pub mod es_config;
pub mod data_directory;
