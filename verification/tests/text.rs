use refsto::text::{file_name, path_depth, path_precedes};

#[test]
fn depth_counts_components_and_root() {
    assert_eq!(path_depth("/a/b/c/img.png"), 5);
    assert_eq!(path_depth("/img.png"), 2);
    assert_eq!(path_depth("img.png"), 1);
    assert_eq!(path_depth("a/b"), 2);
}

#[test]
fn depth_of_paths_without_components() {
    assert_eq!(path_depth(""), 0);
    assert_eq!(path_depth("/"), 1);
    assert_eq!(path_depth("///"), 1);
}

#[test]
fn depth_passes_over_repeated_and_trailing_separators() {
    assert_eq!(path_depth("/a//b/"), 3);
    assert_eq!(path_depth("a///b///"), 2);
}

#[test]
fn depth_counts_characters_not_bytes() {
    assert_eq!(path_depth("/\u{e9}t\u{e9}/\u{56fe}.png"), 3);
}

#[test]
fn file_name_is_last_component() {
    assert_eq!(file_name("/a/b/c/img.png"), "img.png");
    assert_eq!(file_name("img.png"), "img.png");
    assert_eq!(file_name("/a/b/"), "b");
    assert_eq!(file_name("/a/b///"), "b");
}

#[test]
fn file_name_of_paths_without_components_is_empty() {
    assert_eq!(file_name(""), "");
    assert_eq!(file_name("/"), "");
    assert_eq!(file_name("//"), "");
}

#[test]
fn file_name_keeps_characters_outside_ascii() {
    assert_eq!(file_name("/\u{e9}t\u{e9}/\u{56fe}\u{7247}.png"), "\u{56fe}\u{7247}.png");
}

#[test]
fn path_order_is_that_of_strings() {
    let paths = ["", "/", "/a", "/a/b", "/ab", "/b", "a", "\u{e9}", "\u{56fe}", "\u{1f600}"];
    for a in paths.iter() {
        for b in paths.iter() {
            assert_eq!(path_precedes(a, b), a < b);
        }
    }
}

#[test]
fn path_order_has_no_ties_between_different_paths() {
    let paths = ["/x/1.png", "/x/2.png", "/x/10.png", "/x", "/x/"];
    for (i, a) in paths.iter().enumerate() {
        assert!(!path_precedes(a, a));
        for (j, b) in paths.iter().enumerate() {
            if i != j {
                assert!(path_precedes(a, b) != path_precedes(b, a));
            }
        }
    }
}
