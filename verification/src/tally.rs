//! A summary of the updates of a scan: how many ended in which way.

use vstd::prelude::*;
use crate::error::HashIndexError;
use crate::update::UpdateOutcome;

verus! {

/// How many updates ended in each way. A count that has reached the largest
/// number stays there.
#[derive(Clone, Copy, Debug, PartialEq, Eq, Structural)]
pub struct ScanSummary {
    pub unchanged: u64,
    pub indexed: u64,
    pub format: u64,
    pub encoding: u64,
    pub malformed_db: u64,
    pub insert_db: u64,
    pub file_not_found: u64,
    pub other: u64,
}

/// One more, up to the largest number.
pub open spec fn one_more(n: u64) -> u64 {
    if n < u64::MAX {
        (n + 1) as u64
    } else {
        n
    }
}

/// The summary after one more result.
pub open spec fn record_spec(
    s: ScanSummary,
    result: Result<UpdateOutcome, HashIndexError>,
) -> ScanSummary {
    match result {
        Ok(UpdateOutcome::Unchanged) => ScanSummary { unchanged: one_more(s.unchanged), ..s },
        Ok(UpdateOutcome::Indexed) => ScanSummary { indexed: one_more(s.indexed), ..s },
        Err(HashIndexError::Format) => ScanSummary { format: one_more(s.format), ..s },
        Err(HashIndexError::Encoding) => ScanSummary { encoding: one_more(s.encoding), ..s },
        Err(HashIndexError::MalformedDB) => ScanSummary {
            malformed_db: one_more(s.malformed_db),
            ..s
        },
        Err(HashIndexError::InsertDB) => ScanSummary { insert_db: one_more(s.insert_db), ..s },
        Err(HashIndexError::FileNotFound) => ScanSummary {
            file_not_found: one_more(s.file_not_found),
            ..s
        },
        Err(HashIndexError::Other) => ScanSummary { other: one_more(s.other), ..s },
    }
}

fn bump(n: u64) -> (m: u64)
    ensures
        m == one_more(n),
{
    if n < u64::MAX {
        n + 1
    } else {
        n
    }
}

impl ScanSummary {
    /// The summary of no update.
    pub fn new() -> (s: ScanSummary)
        ensures
            s == (ScanSummary {
                unchanged: 0,
                indexed: 0,
                format: 0,
                encoding: 0,
                malformed_db: 0,
                insert_db: 0,
                file_not_found: 0,
                other: 0,
            }),
    {
        ScanSummary {
            unchanged: 0,
            indexed: 0,
            format: 0,
            encoding: 0,
            malformed_db: 0,
            insert_db: 0,
            file_not_found: 0,
            other: 0,
        }
    }

    /// Counts the result of one update.
    pub fn record(&mut self, result: &Result<UpdateOutcome, HashIndexError>)
        ensures
            *final(self) == record_spec(*old(self), *result),
    {
        match result {
            Ok(UpdateOutcome::Unchanged) => {
                self.unchanged = bump(self.unchanged);
            },
            Ok(UpdateOutcome::Indexed) => {
                self.indexed = bump(self.indexed);
            },
            Err(HashIndexError::Format) => {
                self.format = bump(self.format);
            },
            Err(HashIndexError::Encoding) => {
                self.encoding = bump(self.encoding);
            },
            Err(HashIndexError::MalformedDB) => {
                self.malformed_db = bump(self.malformed_db);
            },
            Err(HashIndexError::InsertDB) => {
                self.insert_db = bump(self.insert_db);
            },
            Err(HashIndexError::FileNotFound) => {
                self.file_not_found = bump(self.file_not_found);
            },
            Err(HashIndexError::Other) => {
                self.other = bump(self.other);
            },
        }
    }
}

} // verus!
