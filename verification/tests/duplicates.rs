use refsto::cluster::{cluster_rows, place_row, sets_of, ClusterScan};
use refsto::message::collect_sets;
use refsto::search::{find_exact_duplicates, find_near_duplicates};
use refsto::{BinDupeMessage, Criterion, Entry, HashIndexer, KeepWhichFile};

fn entry(path: &str, content: u64, hash: Option<[u8; 8]>, created: i64) -> Entry {
    Entry {
        full_path: path.to_string(),
        content_hash: content,
        perceptual_hash: hash,
        file_size: 1,
        modified_time: 1,
        created_time: created,
        file_name: path.rsplit('/').next().unwrap().to_string(),
        path_depth: path.matches('/').count() as u64,
    }
}

fn bits(n: u32) -> Option<[u8; 8]> {
    // a hash with the lowest n bits set
    let mut h = [0u8; 8];
    for k in 0..n {
        h[(k / 8) as usize] |= 1 << (k % 8);
    }
    Some(h)
}

fn sample() -> Vec<Entry> {
    vec![
        entry("/a/1.png", 11, bits(0), 5),
        entry("/a/2.png", 22, bits(3), 4),
        entry("/b/1.png", 11, bits(0), 3),
        entry("/c/notes.txt", 33, None, 2),
        entry("/b/3.png", 44, bits(10), 1),
        entry("/d/notes.txt", 33, None, 9),
        entry("/c/1.png", 11, bits(1), 0),
    ]
}

fn path_sets(rows: &Vec<Entry>, sets: &Vec<Vec<usize>>) -> Vec<Vec<String>> {
    let mut out: Vec<Vec<String>> = sets
        .iter()
        .map(|s| {
            let mut p: Vec<String> = s.iter().map(|&i| rows[i].full_path.clone()).collect();
            p.sort();
            p
        })
        .collect();
    out.sort();
    out
}

#[test]
fn exact_duplicates_share_a_content_hash() {
    let rows = sample();
    assert_eq!(find_exact_duplicates(&rows, false), vec![vec![0, 2, 6]]);
    assert_eq!(find_exact_duplicates(&rows, true), vec![vec![0, 2, 6], vec![3, 5]]);
}

#[test]
fn single_rows_are_no_duplicates() {
    let rows = vec![entry("/a", 1, bits(0), 0), entry("/b", 2, bits(64), 0)];
    assert_eq!(find_exact_duplicates(&rows, true), Vec::<Vec<usize>>::new());
    assert_eq!(find_near_duplicates(&rows, 99), Vec::<Vec<usize>>::new());
    assert_eq!(find_exact_duplicates(&Vec::new(), true), Vec::<Vec<usize>>::new());
    assert_eq!(find_near_duplicates(&Vec::new(), 100), Vec::<Vec<usize>>::new());
}

#[test]
fn ignored_row_with_the_hash_of_an_image_joins_only_when_included() {
    let rows = vec![entry("/a.png", 1, bits(0), 0), entry("/a.txt", 1, None, 0)];
    assert_eq!(find_exact_duplicates(&rows, false), Vec::<Vec<usize>>::new());
    assert_eq!(find_exact_duplicates(&rows, true), vec![vec![0, 1]]);
}

#[test]
fn exact_partition_does_not_depend_on_scan_order() {
    let rows = sample();
    let shuffles: [[usize; 7]; 4] = [
        [0, 1, 2, 3, 4, 5, 6],
        [6, 5, 4, 3, 2, 1, 0],
        [3, 0, 6, 1, 5, 2, 4],
        [2, 4, 6, 0, 1, 3, 5],
    ];
    for include_ignored in [false, true] {
        let want = path_sets(&rows, &find_exact_duplicates(&rows, include_ignored));
        for shuffle in shuffles.iter() {
            let shuffled: Vec<Entry> = shuffle.iter().map(|&i| rows[i].clone()).collect();
            let got = path_sets(&shuffled, &find_exact_duplicates(&shuffled, include_ignored));
            assert_eq!(got, want);
        }
    }
}

#[test]
fn zero_threshold_groups_equal_hashes() {
    let rows = sample();
    assert_eq!(find_near_duplicates(&rows, 0), vec![vec![0, 2]]);
    // below two percent the budget is still no bit
    assert_eq!(find_near_duplicates(&rows, 1), vec![vec![0, 2]]);
}

#[test]
fn zero_threshold_partition_does_not_depend_on_scan_order() {
    let mut rows = sample();
    rows.push(entry("/e/2.png", 55, bits(3), 0));
    rows.push(entry("/e/3.png", 66, bits(10), 0));
    let want = path_sets(&rows, &find_near_duplicates(&rows, 0));
    assert_eq!(
        want,
        vec![
            vec!["/a/1.png".to_string(), "/b/1.png".to_string()],
            vec!["/a/2.png".to_string(), "/e/2.png".to_string()],
            vec!["/b/3.png".to_string(), "/e/3.png".to_string()],
        ]
    );
    rows.reverse();
    assert_eq!(path_sets(&rows, &find_near_duplicates(&rows, 0)), want);
}

#[test]
fn near_duplicates_are_within_the_budget_of_the_leader() {
    let rows = sample();
    // 2 percent of 64 bits is one bit
    assert_eq!(find_near_duplicates(&rows, 2), vec![vec![0, 2, 6]]);
    // 5 percent is three bits
    assert_eq!(find_near_duplicates(&rows, 5), vec![vec![0, 1, 2, 6]]);
    // 16 percent is ten bits
    assert_eq!(find_near_duplicates(&rows, 16), vec![vec![0, 1, 2, 4, 6]]);
}

#[test]
fn near_duplicates_never_hold_ignored_rows() {
    let rows = sample();
    for sets in [find_near_duplicates(&rows, 100), find_near_duplicates(&rows, 255)] {
        assert_eq!(sets, vec![vec![0, 1, 2, 4, 6]]);
    }
}

#[test]
fn near_clusters_depend_on_scan_order() {
    // the hashes lie on a line, two bits apart; the budget is two bits
    let a = entry("/a", 1, bits(0), 0);
    let b = entry("/b", 2, bits(2), 0);
    let c = entry("/c", 3, bits(4), 0);
    let budget = Criterion::Perceptual { budget: 2 };
    assert_eq!(cluster_rows(&vec![a.clone(), b.clone(), c.clone()], budget), vec![vec![0, 1]]);
    assert_eq!(cluster_rows(&vec![b, a, c], budget), vec![vec![0, 1, 2]]);
}

#[test]
fn row_joins_the_first_near_leader() {
    let rows = vec![
        entry("/a", 1, bits(0), 0),
        entry("/b", 2, bits(4), 0),
        entry("/c", 3, bits(2), 0),
        entry("/d", 4, bits(6), 0),
    ];
    // /c is near both leaders and joins the first; /d is near only the second
    assert_eq!(
        cluster_rows(&rows, Criterion::Perceptual { budget: 2 }),
        vec![vec![0, 2], vec![1, 3]]
    );
}

#[test]
fn rows_are_placed_one_by_one() {
    let rows = sample();
    let c = Criterion::Content { include_ignored: true };
    let mut clusters: Vec<Vec<usize>> = Vec::new();
    place_row(&rows, c, &mut clusters, 0);
    assert_eq!(clusters, vec![vec![0]]);
    place_row(&rows, c, &mut clusters, 1);
    assert_eq!(clusters, vec![vec![0], vec![1]]);
    place_row(&rows, c, &mut clusters, 2);
    assert_eq!(clusters, vec![vec![0, 2], vec![1]]);
    // a search that is stopped here has looked at three rows only
    let c = Criterion::Content { include_ignored: false };
    let mut clusters: Vec<Vec<usize>> = Vec::new();
    place_row(&rows, c, &mut clusters, 3);
    assert_eq!(clusters, Vec::<Vec<usize>>::new());
}

#[test]
fn bindupes_are_reported_in_keep_order() {
    let index = HashIndexer::from_rows(sample());
    let e = |p: &str| BinDupeMessage::Entry(p.to_string());
    assert_eq!(
        index.find_bindupes(true, KeepWhichFile::CreatedFirst, false),
        vec![
            BinDupeMessage::NewSet,
            e("/c/1.png"),
            e("/b/1.png"),
            e("/a/1.png"),
            BinDupeMessage::NewSet,
            e("/c/notes.txt"),
            e("/d/notes.txt"),
        ]
    );
    assert_eq!(
        index.find_bindupes(false, KeepWhichFile::CreatedFirst, true),
        vec![BinDupeMessage::NewSet, e("/a/1.png"), e("/b/1.png"), e("/c/1.png")]
    );
    assert_eq!(
        index.find_bindupes(false, KeepWhichFile::PathShortest, false),
        vec![BinDupeMessage::NewSet, e("/a/1.png"), e("/b/1.png"), e("/c/1.png")]
    );
}

#[test]
fn bindupes_of_an_index_without_duplicates_are_no_messages() {
    let index = HashIndexer::from_rows(vec![entry("/a", 1, None, 0), entry("/b", 2, None, 0)]);
    assert_eq!(index.find_bindupes(true, KeepWhichFile::NameShortest, false), Vec::new());
    assert_eq!(HashIndexer::new().find_bindupes(true, KeepWhichFile::NameShortest, true), Vec::new());
}

#[test]
fn reported_sets_are_read_back() {
    let index = HashIndexer::from_rows(sample());
    let stream = index.find_bindupes(true, KeepWhichFile::ModifiedFirst, false);
    let sets = collect_sets(&stream).unwrap();
    assert_eq!(
        sets,
        vec![
            vec!["/a/1.png".to_string(), "/b/1.png".to_string(), "/c/1.png".to_string()],
            vec!["/c/notes.txt".to_string(), "/d/notes.txt".to_string()],
        ]
    );
}

#[test]
fn index_methods_agree_with_the_searches() {
    let rows = sample();
    let index = HashIndexer::from_rows(rows.clone());
    assert_eq!(index.len(), 7);
    assert_eq!(index.rows(), &rows);
    assert_eq!(index.find_exact_duplicates(true), find_exact_duplicates(&rows, true));
    assert_eq!(index.find_near_duplicates(5), find_near_duplicates(&rows, 5));
}

#[test]
fn stepwise_search_finds_the_same_sets() {
    let rows = sample();
    for c in [
        Criterion::Content { include_ignored: true },
        Criterion::Content { include_ignored: false },
        Criterion::Perceptual { budget: 3 },
    ] {
        let mut scan = ClusterScan::new(rows.clone(), c);
        let mut steps = 0;
        while !scan.is_done() {
            scan = scan.step();
            steps += 1;
        }
        assert_eq!(steps, 7);
        assert_eq!(scan.sets(), cluster_rows(&rows, c));
        assert_eq!(scan.rows(), &rows);
        // there is no row left to look at
        scan = scan.step();
        assert!(scan.is_done());
        assert_eq!(scan.sets(), cluster_rows(&rows, c));
    }
}

#[test]
fn stopped_search_reports_what_it_has_seen() {
    let mut scan = ClusterScan::new(sample(), Criterion::Content { include_ignored: true });
    assert_eq!(scan.sets(), Vec::<Vec<usize>>::new());
    for _ in 0..3 {
        scan = scan.step();
    }
    assert!(!scan.is_done());
    assert_eq!(scan.sets(), vec![vec![0, 2]]);
    for _ in 0..3 {
        scan = scan.step();
    }
    assert_eq!(scan.sets(), vec![vec![0, 2], vec![3, 5]]);
}

#[test]
fn search_over_no_rows_is_done_at_once() {
    let scan = ClusterScan::new(Vec::new(), Criterion::Perceptual { budget: 64 });
    assert!(scan.is_done());
    assert_eq!(scan.sets(), Vec::<Vec<usize>>::new());
}

#[test]
fn clusters_of_one_row_are_dropped() {
    let clusters = vec![vec![0], vec![1, 4], vec![2], vec![3, 5, 6]];
    assert_eq!(sets_of(&clusters), vec![vec![1, 4], vec![3, 5, 6]]);
    assert_eq!(sets_of(&Vec::new()), Vec::<Vec<usize>>::new());
}
