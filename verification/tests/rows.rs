use refsto::row::{hash_from_column, hash_to_column};
use refsto::{Entry, StoredRow};

fn entry(hash: Option<[u8; 8]>) -> Entry {
    Entry {
        full_path: "/pics/a.png".to_string(),
        content_hash: 0xfedc_ba98_7654_3210,
        perceptual_hash: hash,
        file_size: 1234,
        modified_time: 1_700_000_000,
        created_time: 1_600_000_000,
        file_name: "a.png".to_string(),
        path_depth: 3,
    }
}

fn row(phash: Option<&str>, ignored: bool) -> StoredRow {
    StoredRow {
        fullpath: "/pics/a.png".to_string(),
        phash: phash.map(|t| t.to_string()),
        xxhash: -81985529216486896,
        filesize: 1234,
        mtime: 1_700_000_000,
        ctime: 1_600_000_000,
        filename: "a.png".to_string(),
        dircnt: 3,
        ignored,
    }
}

#[test]
fn content_hash_column_holds_the_same_bits() {
    assert_eq!(hash_to_column(0), 0);
    assert_eq!(hash_to_column(1), 1);
    assert_eq!(hash_to_column(0x7fff_ffff_ffff_ffff), i64::MAX);
    assert_eq!(hash_to_column(0x8000_0000_0000_0000), i64::MIN);
    assert_eq!(hash_to_column(u64::MAX), -1);
    assert_eq!(hash_to_column(0xfedc_ba98_7654_3210), -81985529216486896);
    for h in [0u64, 1, 0x7fff_ffff_ffff_ffff, 0x8000_0000_0000_0000, u64::MAX, 0xdead_beef] {
        assert_eq!(hash_to_column(h), i64::from_be_bytes(h.to_be_bytes()));
        assert_eq!(hash_from_column(hash_to_column(h)), h);
    }
    assert_eq!(hash_from_column(-1), u64::MAX);
    assert_eq!(hash_from_column(i64::MIN), 0x8000_0000_0000_0000);
}

#[test]
fn image_row_is_written_with_its_hash_as_text() {
    assert_eq!(entry(Some([0; 8])).to_row(), row(Some("AAAAAAAAAAA"), false));
    assert_eq!(entry(Some([0xff; 8])).to_row(), row(Some("//////////8"), false));
    let h = [1, 2, 3, 4, 5, 6, 7, 8];
    let want = image_hasher::ImageHash::<[u8; 8]>::from_bytes(&h).unwrap().to_base64();
    assert_eq!(entry(Some(h)).to_row().phash, Some(want));
}

#[test]
fn ignored_row_is_written_without_hash() {
    assert_eq!(entry(None).to_row(), row(None, true));
}

#[test]
fn rows_are_read_back() {
    for hash in [None, Some([0; 8]), Some([0xff; 8]), Some([1, 2, 3, 4, 5, 6, 7, 8])] {
        let e = entry(hash);
        assert_eq!(Entry::from_row(e.to_row()), Some(e));
    }
}

#[test]
fn columns_must_agree_on_ignored() {
    assert_eq!(Entry::from_row(row(Some("AAAAAAAAAAA"), true)), None);
    assert_eq!(Entry::from_row(row(None, false)), None);
    assert!(Entry::from_row(row(Some("AAAAAAAAAAA"), false)).is_some());
    assert!(Entry::from_row(row(None, true)).is_some());
}

#[test]
fn unreadable_hash_text_is_no_row() {
    assert_eq!(Entry::from_row(row(Some("not base64!"), false)), None);
    // twelve bytes do not fit a hash of eight
    assert_eq!(Entry::from_row(row(Some("AAAAAAAAAAAAAAAA"), false)), None);
}

#[test]
fn negative_depth_is_no_row() {
    let mut r = row(None, true);
    r.dircnt = -1;
    assert_eq!(Entry::from_row(r), None);
}

#[test]
fn depth_beyond_the_column_is_held_as_the_largest() {
    let mut e = entry(None);
    e.path_depth = u64::MAX;
    assert_eq!(e.to_row().dircnt, i64::MAX);
    e.path_depth = i64::MAX as u64;
    assert_eq!(e.to_row().dircnt, i64::MAX);
}

#[test]
fn entry_is_copied_whole() {
    let e = entry(Some([9; 8]));
    assert_eq!(e.duplicate(), e);
    assert!(!e.ignored());
    assert!(entry(None).ignored());
}
