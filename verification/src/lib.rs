//! A versioned record of a directory of text entries, and a ranking of those
//! entries from pairwise comparisons.
//!
//! The library is pure: it is handed what was read (the stored history, the
//! files found on disk, the comparison log) and answers with what is to be
//! written or shown. Ratings are never stored; every ranking replays the log.

pub mod entry;
pub mod error;
pub mod listing;
pub mod lookup;
pub mod order;
pub mod pass;
pub mod paths;
pub mod ranking;
pub mod rating;
pub mod reconcile;
pub mod record;
pub mod sample;
pub mod store;
pub mod text;

pub use entry::{File, FileContent, Vote};
pub use error::Error;
pub use sample::take_n;
