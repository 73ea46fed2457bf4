//! External merge sort for line-oriented data, with the tools that go with
//! it.
//!
//! A dataset that is too large to sort in memory is cut into batches; each
//! batch is sorted and spilled to an intermediate store as a run; the runs
//! are then merged through a frontier that holds one record of each run.
//! The library takes every decision of that process and leaves reading and
//! writing to its caller:
//!
//! - [`record`] orders records, byte by byte;
//! - [`sorting`] sorts a batch in memory;
//! - [`store`] frames records in the intermediate store and reads them back;
//! - [`run_writer`] gathers batches and keeps the index of the runs;
//! - [`merge`] holds the cursors of the runs and the frontier that orders them;
//! - [`ingest`], [`kway`] and [`engine`] run the two phases, and the whole
//!   sort, on a store that is held in memory, and state what holds of them;
//! - [`validate`] checks that records are sorted and distinct;
//! - [`diff`] splits two inputs into what they share and what they do not;
//! - [`extract`] takes a string or a digest from a line that holds a JSON object;
//! - [`cli`] names the commands.

pub mod cli;
pub mod diff;
pub mod engine;
pub mod extract;
pub mod ingest;
pub mod kway;
pub mod merge;
pub mod record;
pub mod run_writer;
pub mod sorting;
pub mod store;
pub mod validate;
