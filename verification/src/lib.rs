//! A verified pipeline for normalizing and summarizing GPU transfer
//! measurements.
//!
//! Raw benchmark exports (quoted, thousands-separated CSV lines) are parsed
//! into transfer records, adjacent rows that describe the same logical
//! transfer are merged, and per-run statistics are folded into streaming
//! accumulators that a report writer serializes, one row per leaf directory
//! of the experiment tree.
//!
//! Durations are carried as unsigned integers counting thousandths of a
//! microsecond, so every arithmetic step of the pipeline is exact.
//!
//! - [`bytes`]: splitting, trimming and searching byte strings.
//! - [`num`]: the decimal numerals of the on-disk formats, parsed and
//!   formatted exactly.
//! - [`record`]: transfer records and the two line grammars.
//! - [`merge`]: the two-state machine that coalesces rows of one transfer.
//! - [`transform`]: raw export to normalized file, idempotent per file.
//! - [`stats`]: the min/max/sum/sum-of-squares accumulator and its laws.
//! - [`walk`]: the directory-tree model, leaf classification and the
//!   depth-first work plans.
//! - [`report`]: per-leaf aggregation and the report rows.
//!
//! File reading and writing stay outside the library: callers hand every
//! function the lines it works on and carry the results back to disk.

pub mod bytes;
pub mod merge;
pub mod num;
pub mod record;
pub mod report;
pub mod stats;
pub mod transform;
pub mod walk;
