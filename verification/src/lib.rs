//! An index of image files by content and perceptual fingerprints, and the
//! search for exact and near duplicates in it.
//!
//! The index is a table of [`Entry`] rows, one per file path. The update
//! pipeline decides, for one path, whether the file has to be hashed again and
//! which row is written; the clustering functions group the rows of an index
//! into duplicate sets; the keep policy orders the members of a set so that
//! the first one is the copy to retain.

pub mod cluster;
pub mod entry;
pub mod error;
pub mod fingerprint;
pub mod hamming;
pub mod index;
pub mod message;
pub mod partition;
pub mod policy;
pub mod row;
pub mod search;
pub mod tally;
pub mod text;
pub mod update;

pub use cluster::{ClusterScan, Criterion};
pub use entry::{Entry, EntryView, FileStat, HASH_SIZE_BYTES};
pub use error::HashIndexError;
pub use fingerprint::{Fingerprint, ImageFailure, ImageProbe};
pub use index::HashIndexer;
pub use message::BinDupeMessage;
pub use policy::KeepWhichFile;
pub use row::StoredRow;
pub use tally::ScanSummary;
pub use update::{Resolution, RowStamp, StatOutcome, UpdateOutcome, UpdatePlan};
