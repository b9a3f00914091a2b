//! An embedded append-only sequence log store.
//!
//! A log maps sequence numbers (`u64`), given out in ascending order, to entries
//! (arbitrary bytes). This library holds the decisions, the formats and the checks of
//! such a store; reading and writing files is left to its caller.
//!
//! - [`store::SeqLog`] is the writer: append, rotate, purge, truncate.
//! - [`reader::SeqLogReader`] scans entries in sequence order.
//! - [`syncer::SeqLogSyncer`] synchronizes to disk from another thread.
//! - [`seek::Seek`] finds an entry in a data file, [`recover`] the end of the last one.
//! - [`format`] and [`names`] say what the files of a store look like.
//! - [`handle`] is by what a log and its readers share data files.
//! - [`model`] states what holds of a store as a whole; [`laws`], [`read_laws`] and
//!   [`format_laws`] state what each call comes to.

pub mod decimal;
pub mod error;
pub mod format;
pub mod format_laws;
pub mod handle;
pub mod laws;
pub mod layout;
pub mod model;
pub mod names;
pub mod read_laws;
pub mod reader;
pub mod recover;
pub mod seek;
pub mod state;
pub mod store;
pub mod syncer;

pub use error::Error;
pub use reader::SeqLogReader;
pub use store::SeqLog;
pub use syncer::SeqLogSyncer;
