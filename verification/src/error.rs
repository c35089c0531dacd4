use vstd::prelude::*;

verus! {

/// Why an update of one path did not end in an indexed image.
#[derive(Clone, Copy, Debug, PartialEq, Eq, Structural)]
pub enum HashIndexError {
    /// The file is not a decodable image; it is still indexed, as ignored.
    Format,
    /// The image format was recognised but the bytes are corrupt.
    Encoding,
    /// The store holds more than one row for the path.
    MalformedDB,
    /// The store refused the write.
    InsertDB,
    /// The path does not exist.
    FileNotFound,
    /// Any other failure to read the file's metadata or its image.
    Other,
}

impl HashIndexError {
    /// A short name of the error, for summaries and logs.
    pub fn name(&self) -> (s: &'static str)
        ensures
            s@ == self.name_spec(),
    {
        match self {
            HashIndexError::Format => "Format",
            HashIndexError::Encoding => "Encoding",
            HashIndexError::MalformedDB => "MalformedDB",
            HashIndexError::InsertDB => "InsertDB",
            HashIndexError::FileNotFound => "FileNotFound",
            HashIndexError::Other => "Other",
        }
    }

    /// The characters of [`HashIndexError::name`].
    pub open spec fn name_spec(&self) -> Seq<char> {
        match self {
            HashIndexError::Format => "Format"@,
            HashIndexError::Encoding => "Encoding"@,
            HashIndexError::MalformedDB => "MalformedDB"@,
            HashIndexError::InsertDB => "InsertDB"@,
            HashIndexError::FileNotFound => "FileNotFound"@,
            HashIndexError::Other => "Other"@,
        }
    }
}

} // verus!
