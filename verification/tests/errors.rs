use refsto::HashIndexError;

#[test]
fn error_names_are_distinct() {
    let all = [
        HashIndexError::Format,
        HashIndexError::Encoding,
        HashIndexError::MalformedDB,
        HashIndexError::InsertDB,
        HashIndexError::FileNotFound,
        HashIndexError::Other,
    ];
    for (i, a) in all.iter().enumerate() {
        for (j, b) in all.iter().enumerate() {
            assert_eq!(a.name() == b.name(), i == j);
        }
    }
    assert_eq!(HashIndexError::FileNotFound.name(), "FileNotFound");
}
