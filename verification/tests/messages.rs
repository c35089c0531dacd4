use refsto::message::{collect_sets, receive_message};
use refsto::BinDupeMessage;

fn entry(path: &str) -> BinDupeMessage {
    BinDupeMessage::Entry(path.to_string())
}

#[test]
fn stream_is_read_back_into_sets() {
    let stream = vec![
        BinDupeMessage::NewSet,
        entry("/a/1.png"),
        entry("/b/1.png"),
        BinDupeMessage::NewSet,
        entry("/a/2.png"),
        entry("/c/2.png"),
        entry("/b/2.png"),
    ];
    let sets = collect_sets(&stream).unwrap();
    assert_eq!(
        sets,
        vec![
            vec!["/a/1.png".to_string(), "/b/1.png".to_string()],
            vec!["/a/2.png".to_string(), "/c/2.png".to_string(), "/b/2.png".to_string()],
        ]
    );
}

#[test]
fn empty_stream_holds_no_sets() {
    assert_eq!(collect_sets(&Vec::new()), Some(Vec::new()));
}

#[test]
fn marker_alone_opens_an_empty_set() {
    let stream = vec![BinDupeMessage::NewSet, BinDupeMessage::NewSet, entry("/x")];
    assert_eq!(
        collect_sets(&stream),
        Some(vec![Vec::new(), vec!["/x".to_string()]])
    );
}

#[test]
fn path_before_any_marker_is_refused() {
    let stream = vec![entry("/x"), BinDupeMessage::NewSet];
    assert_eq!(collect_sets(&stream), None);
    let mut sets: Vec<Vec<String>> = Vec::new();
    assert!(!receive_message(&mut sets, &entry("/x")));
    assert!(sets.is_empty());
}

#[test]
fn messages_are_taken_one_by_one() {
    let mut sets: Vec<Vec<String>> = Vec::new();
    assert!(receive_message(&mut sets, &BinDupeMessage::NewSet));
    assert_eq!(sets, vec![Vec::<String>::new()]);
    assert!(receive_message(&mut sets, &entry("/p")));
    assert!(receive_message(&mut sets, &entry("/q")));
    assert_eq!(sets, vec![vec!["/p".to_string(), "/q".to_string()]]);
}
