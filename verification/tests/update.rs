use refsto::fingerprint::fingerprint;
use refsto::update::{conclude_update, plan_update, resolve_update};
use refsto::{
    Entry, FileStat, Fingerprint, HashIndexError, HashIndexer, ImageFailure, ImageProbe,
    Resolution, RowStamp, StatOutcome, UpdateOutcome, UpdatePlan,
};
use std::io::Cursor;

fn picture(seed: u8) -> image::DynamicImage {
    let img = image::RgbImage::from_fn(96, 64, |x, y| {
        let v = (x * 2 + y * 3) as u8;
        image::Rgb([v.wrapping_add(seed), (x as u8) ^ (y as u8), v.wrapping_mul(3)])
    });
    image::DynamicImage::ImageRgb8(img)
}

fn png_bytes(seed: u8) -> Vec<u8> {
    let mut out = Cursor::new(Vec::new());
    picture(seed).write_to(&mut out, image::ImageOutputFormat::Png).unwrap();
    out.into_inner()
}

fn jpeg_bytes(seed: u8) -> Vec<u8> {
    let mut out = Cursor::new(Vec::new());
    picture(seed).write_to(&mut out, image::ImageOutputFormat::Jpeg(95)).unwrap();
    out.into_inner()
}

fn stat(size: i64, modified: i64, created: i64) -> StatOutcome {
    StatOutcome::Found(FileStat { file_size: size, modified_time: modified, created_time: created })
}

fn row<'a>(index: &'a HashIndexer, path: &str) -> &'a Entry {
    let rows: Vec<&Entry> = index.rows().iter().filter(|e| e.full_path == path).collect();
    assert_eq!(rows.len(), 1);
    rows[0]
}

#[test]
fn content_hash_is_xxh3() {
    assert_eq!(fingerprint(b"").content_hash, 0x2d06_8005_38d3_94c2);
    let bytes = b"the quick brown fox";
    assert_eq!(fingerprint(bytes).content_hash, xxhash_rust::xxh3::xxh3_64(bytes));
    assert_ne!(fingerprint(b"a").content_hash, fingerprint(b"b").content_hash);
}

#[test]
fn image_is_decoded_and_hashed() {
    let bytes = png_bytes(0);
    let want = image_hasher::HasherConfig::with_bytes_type::<[u8; 8]>()
        .to_hasher()
        .hash_image(&image::load_from_memory(&bytes).unwrap());
    match fingerprint(&bytes).image {
        ImageProbe::Decoded(h) => assert_eq!(&h[..], want.as_bytes()),
        ImageProbe::Failed(k) => panic!("not decoded: {:?}", k),
    }
}

#[test]
fn same_picture_in_two_formats_has_near_hashes() {
    let a = fingerprint(&png_bytes(0));
    let b = fingerprint(&jpeg_bytes(0));
    assert_ne!(a.content_hash, b.content_hash);
    match (a.image, b.image) {
        (ImageProbe::Decoded(x), ImageProbe::Decoded(y)) => {
            assert!(refsto::hamming::hamming_distance(&x, &y) <= 6);
        }
        _ => panic!("not decoded"),
    }
}

#[test]
fn text_is_no_supported_format() {
    let fp = fingerprint(b"just some words, no picture\n");
    assert_eq!(fp.image, ImageProbe::Failed(ImageFailure::Unsupported));
}

#[test]
fn truncated_image_fails_to_decode() {
    let mut bytes = png_bytes(0);
    bytes.truncate(60);
    match fingerprint(&bytes).image {
        ImageProbe::Failed(ImageFailure::Decoding) | ImageProbe::Failed(ImageFailure::Io) => {}
        other => panic!("unexpected: {:?}", other),
    }
}

#[test]
fn missing_file_is_not_found() {
    let mut index = HashIndexer::new();
    let r = index.update("/gone.png".to_string(), StatOutcome::Missing, b"");
    assert_eq!(r, Err(HashIndexError::FileNotFound));
    assert_eq!(index.len(), 0);
}

#[test]
fn failed_stat_is_other() {
    let mut index = HashIndexer::new();
    let r = index.update("/locked.png".to_string(), StatOutcome::Failed, b"");
    assert_eq!(r, Err(HashIndexError::Other));
    assert_eq!(index.len(), 0);
}

#[test]
fn new_image_is_indexed() {
    let bytes = png_bytes(1);
    let mut index = HashIndexer::new();
    let r = index.update("/pics/2020/a.png".to_string(), stat(bytes.len() as i64, 50, 40), &bytes);
    assert_eq!(r, Ok(UpdateOutcome::Indexed));
    assert_eq!(index.len(), 1);
    let e = row(&index, "/pics/2020/a.png");
    assert_eq!(e.content_hash, xxhash_rust::xxh3::xxh3_64(&bytes));
    assert!(e.perceptual_hash.is_some());
    assert!(!e.ignored());
    assert_eq!(e.file_size, bytes.len() as i64);
    assert_eq!(e.modified_time, 50);
    assert_eq!(e.created_time, 40);
    assert_eq!(e.file_name, "a.png");
    assert_eq!(e.path_depth, 4);
}

#[test]
fn second_update_without_change_is_unchanged() {
    let bytes = png_bytes(1);
    let mut index = HashIndexer::new();
    let s = stat(bytes.len() as i64, 50, 40);
    assert_eq!(index.update("/a.png".to_string(), s, &bytes), Ok(UpdateOutcome::Indexed));
    let before = index.rows().clone();
    assert_eq!(index.update("/a.png".to_string(), s, &bytes), Ok(UpdateOutcome::Unchanged));
    assert_eq!(index.rows(), &before);
    assert_eq!(index.update("/a.png".to_string(), s, &bytes), Ok(UpdateOutcome::Unchanged));
    assert_eq!(index.rows(), &before);
}

#[test]
fn unchanged_stamp_is_trusted_without_reading() {
    let bytes = png_bytes(1);
    let mut index = HashIndexer::new();
    let s = stat(bytes.len() as i64, 50, 40);
    assert_eq!(index.update("/a.png".to_string(), s, &bytes), Ok(UpdateOutcome::Indexed));
    let before = index.rows().clone();
    let r = index.update("/a.png".to_string(), s, b"other bytes altogether");
    assert_eq!(r, Ok(UpdateOutcome::Unchanged));
    assert_eq!(index.rows(), &before);
}

#[test]
fn changed_size_or_time_is_hashed_again() {
    let first = png_bytes(1);
    let second = png_bytes(9);
    let mut index = HashIndexer::new();
    assert_eq!(
        index.update("/a.png".to_string(), stat(first.len() as i64, 50, 40), &first),
        Ok(UpdateOutcome::Indexed)
    );
    assert_eq!(
        index.update("/a.png".to_string(), stat(first.len() as i64, 51, 40), &second),
        Ok(UpdateOutcome::Indexed)
    );
    assert_eq!(index.len(), 1);
    assert_eq!(row(&index, "/a.png").content_hash, xxhash_rust::xxh3::xxh3_64(&second));
    assert_eq!(row(&index, "/a.png").modified_time, 51);
    assert_eq!(
        index.update("/a.png".to_string(), stat(first.len() as i64 + 1, 51, 40), &first),
        Ok(UpdateOutcome::Indexed)
    );
    assert_eq!(index.len(), 1);
    assert_eq!(row(&index, "/a.png").content_hash, xxhash_rust::xxh3::xxh3_64(&first));
}

#[test]
fn copied_jpeg_with_new_time_keeps_its_content_hash() {
    let bytes = jpeg_bytes(3);
    let mut index = HashIndexer::new();
    let size = bytes.len() as i64;
    assert_eq!(
        index.update("/photos/cat.jpg".to_string(), stat(size, 1000, 900), &bytes),
        Ok(UpdateOutcome::Indexed)
    );
    let first = row(&index, "/photos/cat.jpg").clone();
    // the same file after a copy over itself: only the time has changed
    assert_eq!(
        index.update("/photos/cat.jpg".to_string(), stat(size, 2000, 900), &bytes),
        Ok(UpdateOutcome::Indexed)
    );
    assert_eq!(index.len(), 1);
    let again = row(&index, "/photos/cat.jpg").clone();
    assert_eq!(again.content_hash, first.content_hash);
    assert_eq!(again.perceptual_hash, first.perceptual_hash);
    assert_eq!(again.modified_time, 2000);
    // the renamed copy is a row of its own with the same hash
    assert_eq!(
        index.update("/photos/cat-copy.jpg".to_string(), stat(size, 2000, 2000), &bytes),
        Ok(UpdateOutcome::Indexed)
    );
    assert_eq!(index.len(), 2);
    assert_eq!(row(&index, "/photos/cat-copy.jpg").content_hash, first.content_hash);
}

#[test]
fn identical_bytes_get_the_same_content_hash() {
    let bytes = png_bytes(4);
    let mut index = HashIndexer::new();
    let size = bytes.len() as i64;
    assert_eq!(
        index.update("/x/one.png".to_string(), stat(size, 10, 10), &bytes),
        Ok(UpdateOutcome::Indexed)
    );
    assert_eq!(
        index.update("/y/two.png".to_string(), stat(size, 99, 98), &bytes),
        Ok(UpdateOutcome::Indexed)
    );
    assert_eq!(row(&index, "/x/one.png").content_hash, row(&index, "/y/two.png").content_hash);
    let sets = index.find_exact_duplicates(false);
    assert_eq!(sets.len(), 1);
    let mut paths: Vec<&str> =
        sets[0].iter().map(|&i| index.rows()[i].full_path.as_str()).collect();
    paths.sort();
    assert_eq!(paths, vec!["/x/one.png", "/y/two.png"]);
}

#[test]
fn text_with_image_extension_is_indexed_as_ignored() {
    let bytes = b"Dear diary, today I renamed a text file.\n".to_vec();
    let mut index = HashIndexer::new();
    let r = index.update("/docs/diary.png".to_string(), stat(bytes.len() as i64, 5, 5), &bytes);
    assert_eq!(r, Err(HashIndexError::Format));
    assert_eq!(index.len(), 1);
    let e = row(&index, "/docs/diary.png");
    assert!(e.ignored());
    assert_eq!(e.perceptual_hash, None);
    assert_eq!(e.content_hash, xxhash_rust::xxh3::xxh3_64(&bytes));
    // a second copy of the text
    let r = index.update("/docs/copy.png".to_string(), stat(bytes.len() as i64, 6, 6), &bytes);
    assert_eq!(r, Err(HashIndexError::Format));
    assert_eq!(index.find_near_duplicates(0), Vec::<Vec<usize>>::new());
    assert_eq!(index.find_near_duplicates(100), Vec::<Vec<usize>>::new());
    assert_eq!(index.find_exact_duplicates(false), Vec::<Vec<usize>>::new());
    assert_eq!(index.find_exact_duplicates(true), vec![vec![0, 1]]);
}

#[test]
fn ignored_file_is_unchanged_on_the_second_update() {
    let bytes = b"no image".to_vec();
    let mut index = HashIndexer::new();
    let s = stat(bytes.len() as i64, 5, 5);
    assert_eq!(index.update("/n.png".to_string(), s, &bytes), Err(HashIndexError::Format));
    assert_eq!(index.update("/n.png".to_string(), s, &bytes), Ok(UpdateOutcome::Unchanged));
    assert_eq!(index.len(), 1);
}

#[test]
fn corrupt_image_is_reported_and_not_written() {
    let mut bytes = png_bytes(2);
    bytes.truncate(80);
    let mut index = HashIndexer::new();
    let s = stat(bytes.len() as i64, 5, 5);
    assert_eq!(index.update("/broken.png".to_string(), s, &bytes), Err(HashIndexError::Encoding));
    assert_eq!(index.len(), 0);
    // nothing was stored, so the next update tries again
    assert_eq!(index.update("/broken.png".to_string(), s, &bytes), Err(HashIndexError::Encoding));
    assert_eq!(index.len(), 0);
}

#[test]
fn corrupt_image_leaves_the_stored_row() {
    let good = png_bytes(2);
    let mut bad = good.clone();
    bad.truncate(80);
    let mut index = HashIndexer::new();
    assert_eq!(
        index.update("/p.png".to_string(), stat(good.len() as i64, 5, 5), &good),
        Ok(UpdateOutcome::Indexed)
    );
    let before = index.rows().clone();
    assert_eq!(
        index.update("/p.png".to_string(), stat(bad.len() as i64, 6, 5), &bad),
        Err(HashIndexError::Encoding)
    );
    assert_eq!(index.rows(), &before);
}

#[test]
fn two_rows_for_one_path_are_malformed() {
    let bytes = png_bytes(1);
    let mut index = HashIndexer::new();
    let s = stat(bytes.len() as i64, 50, 40);
    assert_eq!(index.update("/a.png".to_string(), s, &bytes), Ok(UpdateOutcome::Indexed));
    let e = index.rows()[0].clone();
    let mut broken = HashIndexer::from_rows(vec![e.clone(), e]);
    let before = broken.rows().clone();
    assert_eq!(broken.update("/a.png".to_string(), s, &bytes), Err(HashIndexError::MalformedDB));
    assert_eq!(
        broken.update("/a.png".to_string(), stat(1, 2, 3), &bytes),
        Err(HashIndexError::MalformedDB)
    );
    assert_eq!(broken.rows(), &before);
    // the stat is looked at first
    assert_eq!(
        broken.update("/a.png".to_string(), StatOutcome::Missing, &bytes),
        Err(HashIndexError::FileNotFound)
    );
}

#[test]
fn written_row_goes_last() {
    let a = png_bytes(1);
    let b = png_bytes(2);
    let mut index = HashIndexer::new();
    index.update("/a.png".to_string(), stat(1, 1, 1), &a).unwrap();
    index.update("/b.png".to_string(), stat(1, 1, 1), &b).unwrap();
    index.update("/a.png".to_string(), stat(2, 2, 2), &a).unwrap();
    let paths: Vec<&str> = index.rows().iter().map(|e| e.full_path.as_str()).collect();
    assert_eq!(paths, vec!["/b.png", "/a.png"]);
}

#[test]
fn plan_follows_stat_and_stored_rows() {
    let found = FileStat { file_size: 10, modified_time: 20, created_time: 5 };
    let same = RowStamp { file_size: 10, modified_time: 20 };
    let none: Vec<RowStamp> = Vec::new();
    assert_eq!(
        plan_update(&StatOutcome::Missing, &none),
        UpdatePlan::Done(Err(HashIndexError::FileNotFound))
    );
    assert_eq!(
        plan_update(&StatOutcome::Failed, &none),
        UpdatePlan::Done(Err(HashIndexError::Other))
    );
    assert_eq!(plan_update(&StatOutcome::Found(found), &none), UpdatePlan::Rehash(found));
    assert_eq!(
        plan_update(&StatOutcome::Found(found), &vec![same]),
        UpdatePlan::Done(Ok(UpdateOutcome::Unchanged))
    );
    let bigger = FileStat { file_size: 11, ..found };
    assert_eq!(plan_update(&StatOutcome::Found(bigger), &vec![same]), UpdatePlan::Rehash(bigger));
    let later = FileStat { modified_time: 21, ..found };
    assert_eq!(plan_update(&StatOutcome::Found(later), &vec![same]), UpdatePlan::Rehash(later));
    let created = FileStat { created_time: 6, ..found };
    assert_eq!(
        plan_update(&StatOutcome::Found(created), &vec![same]),
        UpdatePlan::Done(Ok(UpdateOutcome::Unchanged))
    );
    let other = RowStamp { file_size: 0, modified_time: 0 };
    for stored in [vec![same, same], vec![same, other], vec![other, other, same]] {
        assert_eq!(
            plan_update(&StatOutcome::Found(found), &stored),
            UpdatePlan::Done(Err(HashIndexError::MalformedDB))
        );
        // the stat is looked at first
        assert_eq!(
            plan_update(&StatOutcome::Missing, &stored),
            UpdatePlan::Done(Err(HashIndexError::FileNotFound))
        );
    }
}

#[test]
fn index_gives_the_stamps_of_a_path() {
    let mut index = HashIndexer::new();
    let fp = Fingerprint { content_hash: 5, image: ImageProbe::Failed(ImageFailure::Unsupported) };
    assert_eq!(index.stamps(&"/a".to_string()), Vec::new());
    let _ = index.apply_update(&"/a".to_string(), &stat(3, 4, 5), fp);
    let _ = index.apply_update(&"/b".to_string(), &stat(6, 7, 8), fp);
    assert_eq!(
        index.stamps(&"/a".to_string()),
        vec![RowStamp { file_size: 3, modified_time: 4 }]
    );
    assert_eq!(
        index.stamps(&"/b".to_string()),
        vec![RowStamp { file_size: 6, modified_time: 7 }]
    );
    let twice = HashIndexer::from_rows(vec![index.rows()[0].clone(), index.rows()[0].clone()]);
    assert_eq!(twice.stamps(&"/a".to_string()).len(), 2);
}

#[test]
fn resolution_follows_the_decoder() {
    let s = FileStat { file_size: 10, modified_time: 20, created_time: 5 };
    let path = "/pics/a.png".to_string();
    let fp = |image| Fingerprint { content_hash: 77, image };
    let entry = |perceptual_hash| Entry {
        full_path: path.clone(),
        content_hash: 77,
        perceptual_hash,
        file_size: 10,
        modified_time: 20,
        created_time: 5,
        file_name: "a.png".to_string(),
        path_depth: 3,
    };
    assert_eq!(
        resolve_update(&path, s, fp(ImageProbe::Decoded([9; 8]))),
        Resolution::Write { entry: entry(Some([9; 8])), report: Ok(UpdateOutcome::Indexed) }
    );
    assert_eq!(
        resolve_update(&path, s, fp(ImageProbe::Failed(ImageFailure::Unsupported))),
        Resolution::Write { entry: entry(None), report: Err(HashIndexError::Format) }
    );
    assert_eq!(
        resolve_update(&path, s, fp(ImageProbe::Failed(ImageFailure::Io))),
        Resolution::Skip(HashIndexError::Encoding)
    );
    assert_eq!(
        resolve_update(&path, s, fp(ImageProbe::Failed(ImageFailure::Decoding))),
        Resolution::Skip(HashIndexError::Encoding)
    );
    for k in [ImageFailure::Encoding, ImageFailure::Parameter, ImageFailure::Limits] {
        assert_eq!(
            resolve_update(&path, s, fp(ImageProbe::Failed(k))),
            Resolution::Skip(HashIndexError::Other)
        );
    }
}

#[test]
fn failed_write_is_insert_db() {
    assert_eq!(
        conclude_update(Ok(UpdateOutcome::Indexed), false),
        Err(HashIndexError::InsertDB)
    );
    assert_eq!(
        conclude_update(Err(HashIndexError::Format), false),
        Err(HashIndexError::InsertDB)
    );
    assert_eq!(conclude_update(Ok(UpdateOutcome::Indexed), true), Ok(UpdateOutcome::Indexed));
    assert_eq!(conclude_update(Err(HashIndexError::Format), true), Err(HashIndexError::Format));
}

#[test]
fn apply_update_takes_the_fingerprint_as_given() {
    let mut index = HashIndexer::new();
    let fp = Fingerprint { content_hash: 5, image: ImageProbe::Decoded([1, 2, 3, 4, 5, 6, 7, 8]) };
    let r = index.apply_update(&"/z.png".to_string(), &stat(3, 4, 5), fp);
    assert_eq!(r, Ok(UpdateOutcome::Indexed));
    assert_eq!(
        index.rows(),
        &vec![Entry {
            full_path: "/z.png".to_string(),
            content_hash: 5,
            perceptual_hash: Some([1, 2, 3, 4, 5, 6, 7, 8]),
            file_size: 3,
            modified_time: 4,
            created_time: 5,
            file_name: "z.png".to_string(),
            path_depth: 2,
        }]
    );
}
