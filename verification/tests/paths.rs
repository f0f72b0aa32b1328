//! Canonical paths and the limits of an input.

use layer_merge::input::check_input;
use layer_merge::path::{ancestors, is_under, rank, sorted, Rank};
use layer_merge::validate::validate_path;
use layer_merge::{
    parse_input, ErrorCode, Input, LayerInput, MergeError, MAX_LAYERS, MAX_PATH_LEN, MAX_RECORDS,
};

fn writing(writes: Vec<String>) -> LayerInput {
    LayerInput { writes, ..Default::default() }
}

fn problem(path: &str) -> String {
    let e = validate_path(path).unwrap_err();
    assert_eq!((e.code, e.layer, e.path), (ErrorCode::InvalidPath, None, None));
    e.message
}

#[test]
fn every_fault_of_a_path_is_named() {
    let empty = "path contains an empty segment (leading/trailing/double slash)";
    let dots = "path contains a '.' or '..' segment";
    let control = "path contains non-printable characters";
    for (path, message) in [
        ("", "path is empty"),
        ("é", "path must be ASCII"),
        ("/a", "path must be relative, not absolute"),
        ("/", "path must be relative, not absolute"),
        ("a/", empty),
        ("a//b", empty),
        (".", dots),
        ("..", dots),
        ("a/./b", dots),
        ("a/..", dots),
        ("a\u{7f}", control),
        ("a/\u{1f}", control),
        ("tab\there", control),
        ("nul\0", control),
    ] {
        assert_eq!(problem(path), message, "path {path:?}");
    }
}

#[test]
fn faults_are_found_in_a_fixed_order() {
    assert_eq!(problem(&"é".repeat(257)), "path exceeds 512 bytes");
    assert_eq!(problem("/é"), "path must be ASCII");
    assert_eq!(problem("a\t/./b"), "path contains non-printable characters");
    assert_eq!(problem("a/./b\t"), "path contains a '.' or '..' segment");
    assert_eq!(problem("a/.//b"), "path contains a '.' or '..' segment");
}

#[test]
fn canonical_paths_pass() {
    for path in ["a", "a/b/c", "...", ".a", "a.", " ", "~", "a b/c~d", "-", "\\"] {
        assert!(validate_path(path).is_ok(), "path {path:?}");
    }
}

#[test]
fn the_length_of_a_path_is_limited_in_bytes() {
    assert_eq!(MAX_PATH_LEN, 512);
    assert!(validate_path(&"x".repeat(512)).is_ok());
    assert_eq!(problem(&"x".repeat(513)), "path exceeds 512 bytes");
    assert_eq!(problem(&"é".repeat(256)), "path must be ASCII");
}

#[test]
fn the_number_of_layers_is_limited() {
    assert_eq!(MAX_LAYERS, 30);
    let many = |n: usize| Input { layers: (0..n).map(|_| LayerInput::default()).collect() };
    assert!(check_input(&many(1)).is_ok());
    assert!(check_input(&many(30)).is_ok());
    for n in [0, 31, 100] {
        let e = check_input(&many(n)).unwrap_err();
        assert_eq!(
            e,
            MergeError::new(
                ErrorCode::InvalidInput,
                format!("expected 1..=30 layers, got {n}")
            )
        );
        assert_eq!(e.exit_code(), 2);
    }
}

#[test]
fn the_number_of_records_is_limited() {
    assert_eq!(MAX_RECORDS, 3000);
    let names = |n: usize| (0..n).map(|i| format!("f{i}")).collect::<Vec<String>>();
    let spread = |a: usize, b: usize, c: usize, d: usize| LayerInput {
        writes: names(a),
        mkdirs: names(b),
        whiteouts: names(c),
        opaques: names(d),
    };
    assert_eq!(spread(1, 2, 3, 4).records(), 10);
    let fits = Input { layers: vec![spread(1000, 500, 250, 250), spread(0, 0, 0, 1000)] };
    assert!(check_input(&fits).is_ok());
    let over = Input { layers: vec![spread(1000, 500, 250, 250), spread(0, 0, 0, 1001)] };
    assert_eq!(
        check_input(&over).unwrap_err(),
        MergeError::new(
            ErrorCode::InvalidInput,
            "expected at most 3000 path records in total, got 3001"
        )
    );
}

#[test]
fn limits_come_before_paths() {
    let layers = (0..31).map(|_| writing(vec!["/".to_string()])).collect();
    assert_eq!(check_input(&Input { layers }).unwrap_err().code, ErrorCode::InvalidInput);
}

#[test]
fn the_first_bad_path_is_reported_with_its_place() {
    let e = parse_input(
        r#"{"layers":[{"writes":["ok"]},
            {"opaques":["/o"],"whiteouts":["x//y"],"mkdirs":["fine","../m"],"writes":["w"]}]}"#,
    )
    .unwrap_err();
    assert_eq!(
        e,
        MergeError::new(ErrorCode::InvalidPath, "path contains a '.' or '..' segment")
            .at(1, "../m")
    );
    assert_eq!(e.exit_code(), 1);
    assert_eq!(
        e.to_string(),
        "layer 1, path '../m': path contains a '.' or '..' segment"
    );
}

#[test]
fn ancestors_come_shortest_first() {
    assert!(ancestors("a").is_empty());
    assert_eq!(ancestors("a/b/c"), vec!["a", "a/b"]);
    assert_eq!(ancestors("/x"), vec![""]);
}

#[test]
fn descent_is_by_whole_segments() {
    assert!(is_under("a/b", "a"));
    assert!(is_under("a/b/c", "a"));
    assert!(!is_under("a", "a"));
    assert!(!is_under("ab/c", "a"));
    assert!(!is_under("a", "a/b"));
}

#[test]
fn paths_are_ordered_as_their_bytes() {
    let list: Vec<String> =
        ["b", "a/b", "a", "a!", "é", "ab", "z"].iter().map(|s| s.to_string()).collect();
    assert_eq!(sorted(&list), vec!["a", "a!", "a/b", "ab", "b", "z", "é"]);
    assert!(matches!(rank("a", "a"), Rank::Same));
    assert!(matches!(rank("a", "a/"), Rank::Before));
    assert!(matches!(rank("b", "aa"), Rank::After));
}
