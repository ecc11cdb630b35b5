//! The core of an audio editor: statistics of any range of arbitrarily long audio, edits that can
//! be undone, playback, recording and export.
//!
//! The pieces build on each other:
//!
//! - [`sample`], [`agg`] and [`summary`] answer range queries from a pyramid of aggregates, and
//!   [`stats`] derives what a user reads from an aggregate.
//! - [`map`], [`decode`] and [`capture`] hold the samples of a document in a memory-mapped cache
//!   and say how a decode or a recording fills one. [`cache`] names the cache files and finds the
//!   orphans among them.
//! - [`edit`], [`apply`], [`undo`] and [`audio`] are the open document with its edits.
//! - [`ring`], [`player`], [`recorder`] and [`meter`] stand between a document and a sound device.
//! - [`export`] lays out WAV files, and [`text`] and [`commands`] are small helpers.
//!
//! Samples are held as the bit patterns of single-precision numbers, sums and seconds as those of
//! double-precision numbers. Floating-point arithmetic, files and devices come in as functions.

pub mod agg;
pub mod apply;
pub mod audio;
pub mod cache;
pub mod capture;
pub mod commands;
pub mod decode;
pub mod edit;
pub mod export;
pub mod map;
pub mod meter;
pub mod player;
pub mod recorder;
pub mod ring;
pub mod sample;
pub mod stats;
pub mod summary;
pub mod text;
pub mod undo;

pub use agg::Agg;
pub use stats::{linear_to_db, RangeStats};
pub use summary::Analyzer;
