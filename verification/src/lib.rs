//! Row-oriented ingest, merge and external sort over flat columnar schemas.
//!
//! The crate models rows, schemas and row-group buffers as plain values and
//! verifies the algorithms that operate on them. `model` holds the data
//! model, `keys` resolves sort keys and partition predicates, `columns`
//! encodes batches into typed columns with statistics and back, `cursor` is
//! the lookahead-1 row stream, `buffer` the row-group accumulator, `merge`
//! the k-way merge, and `sorting` the single-pass and two-phase sorts.
//! `paths` parses object paths and derives intermediate file names; `text`,
//! `gen` and `barrier` carry the small text builders, the deterministic
//! data generators and a corruption canary.
//!
//! Reading and writing actual Parquet objects is left to a thin, unverified
//! gateway around this library.

pub mod barrier;
pub mod buffer;
pub mod columns;
pub mod cursor;
pub mod errors;
pub mod gen;
pub mod keys;
pub mod merge;
pub mod model;
pub mod order;
pub mod paths;
pub mod sorting;
pub mod text;

pub use merge::merge_into;
pub use sorting::sort;
