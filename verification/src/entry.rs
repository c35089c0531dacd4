use vstd::prelude::*;

verus! {

/// Number of bytes in a perceptual hash.
pub const HASH_SIZE_BYTES: usize = 8;

/// What a stat of a file tells the index: its size and its two times, in
/// seconds since the Unix epoch.
#[derive(Clone, Copy, Debug, PartialEq, Eq, Structural)]
pub struct FileStat {
    pub file_size: i64,
    pub modified_time: i64,
    pub created_time: i64,
}

/// One row of the index: what is known of one file.
///
/// A row has a perceptual hash exactly when the file decoded as an image;
/// a row without one is *ignored* by the search for near duplicates.
#[derive(Clone, Debug, PartialEq, Eq)]
pub struct Entry {
    /// The key of the row.
    pub full_path: String,
    /// Fingerprint of the file's bytes.
    pub content_hash: u64,
    /// Fingerprint of the decoded image, absent for a file that is no image.
    pub perceptual_hash: Option<[u8; HASH_SIZE_BYTES]>,
    pub file_size: i64,
    pub modified_time: i64,
    pub created_time: i64,
    /// Last component of `full_path`.
    pub file_name: String,
    /// Number of components of `full_path`.
    pub path_depth: u64,
}

/// The mathematical value of an [`Entry`]: its strings as sequences of
/// characters.
pub struct EntryView {
    pub full_path: Seq<char>,
    pub content_hash: u64,
    pub perceptual_hash: Option<[u8; HASH_SIZE_BYTES]>,
    pub file_size: i64,
    pub modified_time: i64,
    pub created_time: i64,
    pub file_name: Seq<char>,
    pub path_depth: u64,
}

impl EntryView {
    /// A row is ignored when it has no perceptual hash.
    pub open spec fn ignored(self) -> bool {
        self.perceptual_hash is None
    }
}

impl View for Entry {
    type V = EntryView;

    open spec fn view(&self) -> EntryView {
        EntryView {
            full_path: self.full_path@,
            content_hash: self.content_hash,
            perceptual_hash: self.perceptual_hash,
            file_size: self.file_size,
            modified_time: self.modified_time,
            created_time: self.created_time,
            file_name: self.file_name@,
            path_depth: self.path_depth,
        }
    }
}

/// The values of a sequence of rows.
pub open spec fn rows_view(rows: Seq<Entry>) -> Seq<EntryView> {
    rows.map_values(|e: Entry| e@)
}

impl Entry {
    /// Whether the row is left out of the search for near duplicates.
    pub fn ignored(&self) -> (b: bool)
        ensures
            b == self@.ignored(),
    {
        self.perceptual_hash.is_none()
    }

    /// A copy of the row.
    pub fn duplicate(&self) -> (r: Entry)
        ensures
            r == *self,
    {
        Entry {
            full_path: self.full_path.clone(),
            content_hash: self.content_hash,
            perceptual_hash: self.perceptual_hash,
            file_size: self.file_size,
            modified_time: self.modified_time,
            created_time: self.created_time,
            file_name: self.file_name.clone(),
            path_depth: self.path_depth,
        }
    }
}

} // verus!
