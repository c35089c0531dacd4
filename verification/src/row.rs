//! Rows as the store holds them: the columns of the table of entries, and
//! how a row of the index is written to them and read back.

use vstd::prelude::*;
use crate::entry::{Entry, EntryView, HASH_SIZE_BYTES};
use crate::fingerprint::{
    base64_of_hash_spec,
    hash_of_base64_spec,
    hash_to_base64,
    hash_from_base64,
};

verus! {

/// The columns of one row of the store.
#[derive(Clone, Debug, PartialEq, Eq)]
pub struct StoredRow {
    /// The key of the row.
    pub fullpath: String,
    /// The perceptual hash as Base64 text, absent for an ignored row.
    pub phash: Option<String>,
    /// The content hash, its 64 bits read as a signed number.
    pub xxhash: i64,
    pub filesize: i64,
    pub mtime: i64,
    pub ctime: i64,
    pub filename: String,
    pub dircnt: i64,
    /// Set for a file that is no image.
    pub ignored: bool,
}

/// The mathematical value of a [`StoredRow`].
pub struct StoredRowView {
    pub fullpath: Seq<char>,
    pub phash: Option<Seq<char>>,
    pub xxhash: i64,
    pub filesize: i64,
    pub mtime: i64,
    pub ctime: i64,
    pub filename: Seq<char>,
    pub dircnt: i64,
    pub ignored: bool,
}

impl View for StoredRow {
    type V = StoredRowView;

    open spec fn view(&self) -> StoredRowView {
        StoredRowView {
            fullpath: self.fullpath@,
            phash: match self.phash {
                Some(t) => Some(t@),
                None => None,
            },
            xxhash: self.xxhash,
            filesize: self.filesize,
            mtime: self.mtime,
            ctime: self.ctime,
            filename: self.filename@,
            dircnt: self.dircnt,
            ignored: self.ignored,
        }
    }
}

/// The signed number with the 64 bits of `h`.
pub open spec fn signed_of(h: u64) -> i64 {
    if h <= i64::MAX {
        h as i64
    } else {
        (h - 0x1_0000_0000_0000_0000) as i64
    }
}

/// The unsigned number with the 64 bits of `x`.
pub open spec fn unsigned_of(x: i64) -> u64 {
    if x >= 0 {
        x as u64
    } else {
        (x + 0x1_0000_0000_0000_0000) as u64
    }
}

/// The depth as the store holds it. The column is signed: a depth beyond
/// its range is held as the largest number.
pub open spec fn depth_column(depth: u64) -> i64 {
    if depth <= i64::MAX {
        depth as i64
    } else {
        i64::MAX
    }
}

/// The columns of a row of the index.
pub open spec fn to_row_spec(e: EntryView) -> StoredRowView {
    StoredRowView {
        fullpath: e.full_path,
        phash: match e.perceptual_hash {
            Some(h) => Some(base64_of_hash_spec(h@)),
            None => None,
        },
        xxhash: signed_of(e.content_hash),
        filesize: e.file_size,
        mtime: e.modified_time,
        ctime: e.created_time,
        filename: e.file_name,
        dircnt: depth_column(e.path_depth),
        ignored: e.perceptual_hash is None,
    }
}

/// The perceptual hash that the columns of a row hold: `Some(None)` for an
/// ignored row without a hash, `Some(Some(h))` for a row that is not ignored
/// and has the hash `h`, and `None` where the columns do not agree or the
/// text is no hash.
pub open spec fn hash_column(r: StoredRowView) -> Option<Option<[u8; HASH_SIZE_BYTES]>> {
    match r.phash {
        None => if r.ignored {
            Some(None)
        } else {
            None
        },
        Some(t) => if r.ignored {
            None
        } else {
            match hash_of_base64_spec(t) {
                Some(h) => Some(Some(h)),
                None => None,
            }
        },
    }
}

/// The row of the index that the columns hold. There is none where the row
/// is flagged as ignored and has a hash, or is not flagged and has none,
/// where the text of the hash cannot be read, and where the depth is
/// negative.
pub open spec fn from_row_spec(r: StoredRowView) -> Option<EntryView> {
    match hash_column(r) {
        None => None,
        Some(perceptual_hash) => if r.dircnt < 0 {
            None
        } else {
            Some(
                EntryView {
                    full_path: r.fullpath,
                    content_hash: unsigned_of(r.xxhash),
                    perceptual_hash,
                    file_size: r.filesize,
                    modified_time: r.mtime,
                    created_time: r.ctime,
                    file_name: r.filename,
                    path_depth: r.dircnt as u64,
                },
            )
        },
    }
}

/// Reading the bits of a number as signed and back gives the number, in
/// both directions.
pub proof fn lemma_signed_unsigned(h: u64, x: i64)
    ensures
        unsigned_of(signed_of(h)) == h,
        signed_of(unsigned_of(x)) == x,
{
}

/// The content hash as the store holds it.
pub fn hash_to_column(h: u64) -> (x: i64)
    ensures
        x == signed_of(h),
{
    if h <= 0x7fff_ffff_ffff_ffff {
        h as i64
    } else {
        let low: u64 = h - 0x8000_0000_0000_0000;
        (low as i64) + i64::MIN
    }
}

/// The content hash that the store holds.
pub fn hash_from_column(x: i64) -> (h: u64)
    ensures
        h == unsigned_of(x),
{
    if x >= 0 {
        x as u64
    } else {
        let low: i64 = x - i64::MIN;
        (low as u64) + 0x8000_0000_0000_0000
    }
}

impl Entry {
    /// The columns of the row. Read back, they give the row again, unless
    /// its depth is beyond the range of its column.
    pub fn to_row(&self) -> (r: StoredRow)
        ensures
            r@ == to_row_spec(self@),
            self.path_depth <= i64::MAX ==> from_row_spec(r@) == Some(self@),
    {
        let phash = match &self.perceptual_hash {
            Some(h) => Some(hash_to_base64(h)),
            None => None,
        };
        let dircnt: i64 = if self.path_depth <= 0x7fff_ffff_ffff_ffff {
            self.path_depth as i64
        } else {
            i64::MAX
        };
        StoredRow {
            fullpath: self.full_path.clone(),
            phash,
            xxhash: hash_to_column(self.content_hash),
            filesize: self.file_size,
            mtime: self.modified_time,
            ctime: self.created_time,
            filename: self.file_name.clone(),
            dircnt,
            ignored: self.perceptual_hash.is_none(),
        }
    }

    /// The row that the columns hold, if they hold one.
    pub fn from_row(row: StoredRow) -> (r: Option<Entry>)
        ensures
            r is Some <==> from_row_spec(row@) is Some,
            r matches Some(e) ==> Some(e@) == from_row_spec(row@),
    {
        let perceptual_hash = match &row.phash {
            None => {
                if !row.ignored {
                    return None;
                }
                None
            },
            Some(t) => {
                if row.ignored {
                    return None;
                }
                match hash_from_base64(t.as_str()) {
                    Some(h) => Some(h),
                    None => {
                        return None;
                    },
                }
            },
        };
        if row.dircnt < 0 {
            return None;
        }
        Some(
            Entry {
                full_path: row.fullpath,
                content_hash: hash_from_column(row.xxhash),
                perceptual_hash,
                file_size: row.filesize,
                modified_time: row.mtime,
                created_time: row.ctime,
                file_name: row.filename,
                path_depth: row.dircnt as u64,
            },
        )
    }
}

} // verus!
