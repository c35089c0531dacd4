//! The update of one path, as the decisions between the steps that touch
//! the file system and the store.
//!
//! A driver stats the file and reads what the store holds for the path;
//! [`plan_update`] then says whether the update is over or the file has to
//! be read. The driver reads the file, takes its
//! [`fingerprint`](crate::fingerprint::fingerprint), and [`resolve_update`]
//! says which row to write, if any, and what to report. After the write
//! [`conclude_update`] gives the result of the update.

use vstd::prelude::*;
use crate::entry::{Entry, EntryView, FileStat};
use crate::error::HashIndexError;
use crate::fingerprint::{Fingerprint, ImageProbe, ImageFailure};
use crate::text::{file_name, file_name_spec, path_depth, path_depth_spec};

verus! {

/// How the stat of a path ended.
#[derive(Clone, Copy, Debug, PartialEq, Eq)]
pub enum StatOutcome {
    /// The file is there.
    Found(FileStat),
    /// There is no file at the path.
    Missing,
    /// The stat failed in another way.
    Failed,
}

/// What the update reads of a stored row: the size and the time of
/// modification that the file had when the row was written.
#[derive(Clone, Copy, Debug, PartialEq, Eq, Structural)]
pub struct RowStamp {
    pub file_size: i64,
    pub modified_time: i64,
}

/// How an update ended well.
#[derive(Clone, Copy, Debug, PartialEq, Eq, Structural)]
pub enum UpdateOutcome {
    /// The stored row has the file's size and time of modification; nothing
    /// was read or written.
    Unchanged,
    /// The file was hashed and its row written.
    Indexed,
}

/// What follows the stat and the look at the store.
#[derive(Clone, Copy, Debug, PartialEq, Eq)]
pub enum UpdatePlan {
    /// The update is over, with this result.
    Done(Result<UpdateOutcome, HashIndexError>),
    /// The file has to be read and hashed.
    Rehash(FileStat),
}

/// What follows the hashing of the file.
#[derive(Debug, PartialEq, Eq)]
pub enum Resolution {
    /// Write `entry`, and report `report` if the write succeeds.
    Write { entry: Entry, report: Result<UpdateOutcome, HashIndexError> },
    /// Write nothing, and report this error.
    Skip(HashIndexError),
}

/// The mathematical value of a [`Resolution`].
pub enum ResolutionView {
    Write { entry: EntryView, report: Result<UpdateOutcome, HashIndexError> },
    Skip(HashIndexError),
}

impl View for Resolution {
    type V = ResolutionView;

    open spec fn view(&self) -> ResolutionView {
        match self {
            Resolution::Write { entry, report } => ResolutionView::Write {
                entry: entry@,
                report: *report,
            },
            Resolution::Skip(e) => ResolutionView::Skip(*e),
        }
    }
}

/// What follows the stat of a path and the look at the store, where
/// `stored` are the stamps of the rows that the store holds for the path.
///
/// A path that is not there ends the update with `FileNotFound`, another
/// failure of the stat with `Other`. More than one row for the path ends it
/// with `MalformedDB`. One row with the size and the time of modification
/// that the stat gave ends it with `Unchanged`. In every other case the file
/// is read again.
pub open spec fn plan_spec(stat: StatOutcome, stored: Seq<RowStamp>) -> UpdatePlan {
    match stat {
        StatOutcome::Missing => UpdatePlan::Done(Err(HashIndexError::FileNotFound)),
        StatOutcome::Failed => UpdatePlan::Done(Err(HashIndexError::Other)),
        StatOutcome::Found(s) => {
            if stored.len() > 1 {
                UpdatePlan::Done(Err(HashIndexError::MalformedDB))
            } else if stored.len() == 1 && stored[0].file_size == s.file_size
                && stored[0].modified_time == s.modified_time {
                UpdatePlan::Done(Ok(UpdateOutcome::Unchanged))
            } else {
                UpdatePlan::Rehash(s)
            }
        },
    }
}

/// The row that an update writes for a path.
pub open spec fn fresh_entry(
    path: Seq<char>,
    stat: FileStat,
    content_hash: u64,
    perceptual_hash: Option<[u8; crate::entry::HASH_SIZE_BYTES]>,
) -> EntryView {
    EntryView {
        full_path: path,
        content_hash,
        perceptual_hash,
        file_size: stat.file_size,
        modified_time: stat.modified_time,
        created_time: stat.created_time,
        file_name: file_name_spec(path),
        path_depth: path_depth_spec(path) as u64,
    }
}

/// What follows the hashing of a file.
///
/// An image is written with its perceptual hash, and the update reports
/// `Indexed`. A file in no format that the decoder supports is written
/// without one, that is as ignored, and the update reports `Format`. Where
/// the decoder knew the format and failed on the bytes, nothing is written
/// and the update reports `Encoding`; where it failed in another way,
/// nothing is written and the update reports `Other`.
pub open spec fn resolve_spec(path: Seq<char>, stat: FileStat, fp: Fingerprint) -> ResolutionView {
    match fp.image {
        ImageProbe::Decoded(h) => ResolutionView::Write {
            entry: fresh_entry(path, stat, fp.content_hash, Some(h)),
            report: Ok(UpdateOutcome::Indexed),
        },
        ImageProbe::Failed(ImageFailure::Unsupported) => ResolutionView::Write {
            entry: fresh_entry(path, stat, fp.content_hash, None),
            report: Err(HashIndexError::Format),
        },
        ImageProbe::Failed(ImageFailure::Io) => ResolutionView::Skip(HashIndexError::Encoding),
        ImageProbe::Failed(ImageFailure::Decoding) => ResolutionView::Skip(
            HashIndexError::Encoding,
        ),
        ImageProbe::Failed(_) => ResolutionView::Skip(HashIndexError::Other),
    }
}

/// The result of an update that wrote a row: what was to be reported where
/// the store took the row, `InsertDB` where it did not.
pub open spec fn conclude_spec(
    report: Result<UpdateOutcome, HashIndexError>,
    written: bool,
) -> Result<UpdateOutcome, HashIndexError> {
    if written {
        report
    } else {
        Err(HashIndexError::InsertDB)
    }
}

/// Decides what follows the stat of a path and the look at the store.
/// `stored` are the stamps of the rows that the store holds for the path.
pub fn plan_update(stat: &StatOutcome, stored: &Vec<RowStamp>) -> (plan: UpdatePlan)
    ensures
        plan == plan_spec(*stat, stored@),
{
    match stat {
        StatOutcome::Missing => UpdatePlan::Done(Err(HashIndexError::FileNotFound)),
        StatOutcome::Failed => UpdatePlan::Done(Err(HashIndexError::Other)),
        StatOutcome::Found(s) => {
            if stored.len() > 1 {
                UpdatePlan::Done(Err(HashIndexError::MalformedDB))
            } else if stored.len() == 1 && stored[0].file_size == s.file_size
                && stored[0].modified_time == s.modified_time {
                UpdatePlan::Done(Ok(UpdateOutcome::Unchanged))
            } else {
                UpdatePlan::Rehash(*s)
            }
        },
    }
}

/// Decides what follows the hashing of the file at `full_path`.
pub fn resolve_update(full_path: &String, stat: FileStat, fp: Fingerprint) -> (r: Resolution)
    ensures
        r@ == resolve_spec(full_path@, stat, fp),
{
    match fp.image {
        ImageProbe::Decoded(h) => Resolution::Write {
            entry: make_entry(full_path, stat, fp.content_hash, Some(h)),
            report: Ok(UpdateOutcome::Indexed),
        },
        ImageProbe::Failed(ImageFailure::Unsupported) => Resolution::Write {
            entry: make_entry(full_path, stat, fp.content_hash, None),
            report: Err(HashIndexError::Format),
        },
        ImageProbe::Failed(ImageFailure::Io) => Resolution::Skip(HashIndexError::Encoding),
        ImageProbe::Failed(ImageFailure::Decoding) => Resolution::Skip(HashIndexError::Encoding),
        ImageProbe::Failed(_) => Resolution::Skip(HashIndexError::Other),
    }
}

/// The row for a file that was just hashed.
fn make_entry(
    full_path: &String,
    stat: FileStat,
    content_hash: u64,
    perceptual_hash: Option<[u8; crate::entry::HASH_SIZE_BYTES]>,
) -> (e: Entry)
    ensures
        e@ == fresh_entry(full_path@, stat, content_hash, perceptual_hash),
{
    Entry {
        full_path: full_path.clone(),
        content_hash,
        perceptual_hash,
        file_size: stat.file_size,
        modified_time: stat.modified_time,
        created_time: stat.created_time,
        file_name: file_name(full_path.as_str()),
        path_depth: path_depth(full_path.as_str()),
    }
}

/// The result of an update after its write.
pub fn conclude_update(report: Result<UpdateOutcome, HashIndexError>, written: bool) -> (r: Result<
    UpdateOutcome,
    HashIndexError,
>)
    ensures
        r == conclude_spec(report, written),
{
    if written {
        report
    } else {
        Err(HashIndexError::InsertDB)
    }
}

} // verus!
