//! What merged images and errors look like as JSON.

use layer_merge::report::{err_document, ok_document};
use layer_merge::wire::{read_json, write_json};
use layer_merge::{err_json, ok_json, run, ErrorCode, MergeError, Output, USAGE};
use serde_json::Value;

fn merged(text: &str) -> Output {
    run(text).unwrap_or_else(|e| panic!("refused: {}", e.to_string()))
}

#[test]
fn a_merged_image_is_written_field_by_field() {
    let out = merged(
        r#"{"layers":[{"writes":["d/f","g"]},{"opaques":["d"],"writes":["g","d/\"q\""]}]}"#,
    );
    assert_eq!(
        ok_json(&out, false),
        concat_lines(&[
            r#"{"ok":true,"tree":{"kind":"dir","path":"","source_layer":null,"children":["#,
            r#"{"kind":"dir","path":"d","source_layer":0,"children":["#,
            r#"{"kind":"file","path":"d/\"q\"","source_layer":1}]},"#,
            r#"{"kind":"file","path":"g","source_layer":1}]},"#,
            r#""files":[{"path":"d/\"q\"","source_layer":1},{"path":"g","source_layer":1}],"#,
            r#""obscured":[{"path":"d/f","source_layer":0,"reason":"opaque_ancestor","by_layer":1,"via":"d"},"#,
            r#"{"path":"g","source_layer":0,"reason":"overwritten","by_layer":1}],"#,
            r#""stats":{"layers":2,"files":2,"dirs":1,"obscured":2}}"#,
        ])
    );
}

fn concat_lines(parts: &[&str]) -> String {
    parts.concat()
}

#[test]
fn an_empty_image_has_no_children() {
    let out = merged(r#"{"layers":[{}]}"#);
    assert_eq!(
        ok_json(&out, false),
        concat_lines(&[
            r#"{"ok":true,"tree":{"kind":"dir","path":"","source_layer":null},"#,
            r#""files":[],"obscured":[],"stats":{"layers":1,"files":0,"dirs":0,"obscured":0}}"#,
        ])
    );
}

#[test]
fn pretty_output_is_indented() {
    let out = merged(r#"{"layers":[{"writes":["a"]}]}"#);
    let text = ok_json(&out, true);
    assert!(text.starts_with("{\n  \"ok\": true,\n  \"tree\": {\n    \"kind\": \"dir\",\n"));
    assert!(text.contains("\"files\": [\n    {\n      \"path\": \"a\",\n      \"source_layer\": 0\n    }\n  ]"));
    let e = MergeError::new(ErrorCode::InvalidJson, "no");
    assert_eq!(
        err_json(&e, true),
        "{\n  \"ok\": false,\n  \"error\": {\n    \"code\": \"invalid_json\",\n    \"message\": \"no\"\n  }\n}"
    );
}

#[test]
fn errors_are_written_with_what_they_know() {
    let bare = MergeError::new(ErrorCode::InvalidInput, "what \"it\" is".to_string());
    assert_eq!(
        err_json(&bare, false),
        r#"{"ok":false,"error":{"code":"invalid_input","message":"what \"it\" is"}}"#
    );
    let placed = MergeError::new(ErrorCode::LayerConflict, "m").at(3, "a/b");
    assert_eq!(
        err_json(&placed, false),
        r#"{"ok":false,"error":{"code":"layer_conflict","message":"m","layer":3,"path":"a/b"}}"#
    );
    let half = MergeError { path: None, ..placed };
    assert_eq!(
        err_json(&half, false),
        r#"{"ok":false,"error":{"code":"layer_conflict","message":"m","layer":3}}"#
    );
}

#[test]
fn every_error_class_has_a_name_and_an_exit_code() {
    for (code, name, exit) in [
        (ErrorCode::InvalidJson, "invalid_json", 2),
        (ErrorCode::InvalidInput, "invalid_input", 2),
        (ErrorCode::InvalidPath, "invalid_path", 1),
        (ErrorCode::LayerConflict, "layer_conflict", 1),
        (ErrorCode::InvalidOpaque, "invalid_opaque", 1),
        (ErrorCode::FileAsParent, "file_as_parent", 1),
        (ErrorCode::Internal, "internal", 1),
    ] {
        let e = MergeError::new(code, "m");
        assert_eq!(e.exit_code(), exit);
        let doc: Value = serde_json::from_str(&err_json(&e, false)).unwrap();
        assert_eq!(doc["error"]["code"], name);
    }
}

#[test]
fn every_reason_has_a_name() {
    let out = merged(
        r#"{"layers":[
            {"writes":["f","m","w","x/y","o/p","r/s"]},
            {"writes":["f","r"],"mkdirs":["m"],"whiteouts":["w","x"],"opaques":["o"]}
        ]}"#,
    );
    let doc: Value = serde_json::from_str(&ok_json(&out, false)).unwrap();
    let got: Vec<(&str, &str, Option<&str>)> = doc["obscured"]
        .as_array()
        .unwrap()
        .iter()
        .map(|o| {
            (o["path"].as_str().unwrap(), o["reason"].as_str().unwrap(), o["via"].as_str())
        })
        .collect();
    assert_eq!(
        got,
        vec![
            ("f", "overwritten", None),
            ("m", "replaced_by_dir", None),
            ("o/p", "opaque_ancestor", Some("o")),
            ("r", "replaced_by_file", None),
            ("r/s", "replaced_ancestor", Some("r")),
            ("w", "whiteout", None),
            ("x", "whiteout", None),
            ("x/y", "whiteout_ancestor", Some("x")),
        ]
    );
}

#[test]
fn errors_read_as_lines() {
    let e = MergeError::new(ErrorCode::FileAsParent, "why");
    assert_eq!(e.to_string(), "why");
    assert_eq!(e.clone().at(12, "p").to_string(), "layer 12, path 'p': why");
    assert_eq!(MergeError { layer: Some(100), ..e.clone() }.to_string(), "layer 100: why");
    assert_eq!(MergeError { path: Some("p".to_string()), ..e }.to_string(), "why");
}

#[test]
fn both_formats_read_as_the_same_document() {
    let out = merged(
        r#"{"layers":[{"writes":["a/b/c","d"]},{"whiteouts":["a"],"writes":["d","a/~\\"]}]}"#,
    );
    let compact = ok_json(&out, false);
    let pretty = ok_json(&out, true);
    assert_ne!(compact, pretty);
    for text in [&compact, &pretty] {
        let doc = read_json(text).unwrap();
        assert_eq!(write_json(&doc, false), compact);
        assert_eq!(write_json(&doc, true), pretty);
    }
    assert_eq!(write_json(&ok_document(&out), false), compact);
    let e = MergeError::new(ErrorCode::InvalidOpaque, "\u{1}é\n").at(0, "");
    assert_eq!(write_json(&read_json(&err_json(&e, true)).unwrap(), false), err_json(&e, false));
    assert_eq!(write_json(&err_document(&e), true), err_json(&e, true));
}

#[test]
fn deep_images_are_written_but_not_read_back() {
    let deep = |n: usize| {
        let path = vec!["a"; n].join("/");
        merged(&format!("{{\"layers\":[{{\"writes\":[\"{path}\"]}}]}}"))
    };
    for pretty in [false, true] {
        assert!(read_json(&ok_json(&deep(62), pretty)).is_ok());
        assert!(read_json(&ok_json(&deep(63), pretty)).is_err());
    }
    assert_eq!(deep(256).stats.dirs, 255);
}

#[test]
fn the_help_text_names_the_options_and_exit_codes() {
    assert!(USAGE.starts_with("layer-merge — merge OCI-style image layers"));
    assert!(USAGE.contains("layer-merge [--pretty] < input.json\n    layer-merge --help\n"));
    assert!(USAGE.contains("\n    2  the input is not well-formed JSON / violates the schema or limits\n"));
}
