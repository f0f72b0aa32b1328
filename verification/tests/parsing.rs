//! Which documents are inputs, and what is said of those that are not.

use layer_merge::json::{Json, Member};
use layer_merge::schema::document_layers;
use layer_merge::wire::read_json;
use layer_merge::{input_json, parse_input, ErrorCode, Input, LayerInput};
use serde_json::Value;

fn refusal(text: &str) -> (ErrorCode, String) {
    match parse_input(text) {
        Ok(input) => panic!("accepted {text}: {input:?}"),
        Err(e) => {
            assert_eq!((e.layer, e.path), (None, None), "input: {text}");
            (e.code, e.message)
        }
    }
}

fn accepted(text: &str) -> Input {
    parse_input(text).unwrap_or_else(|e| panic!("refused {text}: {}", e.to_string()))
}

fn member(key: &str, value: Json) -> Member {
    Member { key: key.to_string(), value }
}

#[test]
fn documents_of_the_wrong_type_are_described() {
    for (text, what) in [
        ("null", "null"),
        ("true", "boolean `true`"),
        ("false", "boolean `false`"),
        ("5", "integer `5`"),
        ("18446744073709551615", "integer `18446744073709551615`"),
        ("-7", "integer `-7`"),
        ("-9223372036854775808", "integer `-9223372036854775808`"),
        ("1.5", "floating point `1.5`"),
        ("\"plain\"", "string \"plain\""),
        (r#""quote\"tab\tend""#, r#"string "quote\"tab\tend""#),
    ] {
        assert_eq!(
            refusal(text),
            (
                ErrorCode::InvalidInput,
                format!("invalid input: invalid type: {what}, expected struct Input")
            )
        );
    }
}

#[test]
fn parts_of_the_wrong_type_are_described() {
    for (text, message) in [
        (r#"{"layers":5}"#, "invalid type: integer `5`, expected a sequence"),
        (r#"{"layers":{}}"#, "invalid type: map, expected a sequence"),
        (r#"{"layers":[7]}"#, "invalid type: integer `7`, expected struct LayerInput"),
        (r#"{"layers":[{},"x"]}"#, "invalid type: string \"x\", expected struct LayerInput"),
        (r#"{"layers":[{"writes":"a"}]}"#, "invalid type: string \"a\", expected a sequence"),
        (r#"{"layers":[{"mkdirs":["a",null]}]}"#, "invalid type: null, expected a string"),
        (r#"{"layers":[{"opaques":[[]]}]}"#, "invalid type: sequence, expected a string"),
        (r#"{"layers":[{"whiteouts":[{}]}]}"#, "invalid type: map, expected a string"),
    ] {
        assert_eq!(
            refusal(text),
            (ErrorCode::InvalidInput, format!("invalid input: {message}")),
            "input: {text}"
        );
    }
}

#[test]
fn list_messages_are_those_of_the_json_library() {
    for text in [
        "null", "true", "3", "-3", "2.25", "1e300", "18446744073709551616", "\"é\\u0007\"", "{}",
        "[1]", "[\"a\",false]", "[\"a\",{\"b\":1}]", "[[\"a\"]]",
    ] {
        let value: Value = serde_json::from_str(text).unwrap();
        let theirs = serde_json::from_value::<Vec<String>>(value).unwrap_err().to_string();
        let (code, ours) = refusal(&format!("{{\"layers\":[{{\"writes\":{text}}}]}}"));
        assert_eq!(code, ErrorCode::InvalidInput);
        assert_eq!(ours, format!("invalid input: {theirs}"));
    }
}

#[test]
fn unknown_and_missing_members_are_named() {
    for (text, message) in [
        ("{}", "missing field `layers`"),
        (r#"{"layerz":[]}"#, "unknown field `layerz`, expected `layers`"),
        (
            r#"{"layers":[{"writes":["a"],"bogus":1}]}"#,
            "unknown field `bogus`, expected one of `writes`, `mkdirs`, `whiteouts`, `opaques`",
        ),
    ] {
        assert_eq!(refusal(text), (ErrorCode::InvalidInput, format!("invalid input: {message}")));
    }
}

#[test]
fn the_first_fault_in_key_order_is_reported() {
    assert_eq!(
        refusal(r#"{"layers":5,"zebra":1}"#).1,
        "invalid input: invalid type: integer `5`, expected a sequence"
    );
    for text in [r#"{"layers":5,"ant":1}"#, r#"{"ant":1,"layers":5}"#] {
        assert_eq!(refusal(text).1, "invalid input: unknown field `ant`, expected `layers`");
    }
    assert_eq!(
        refusal(r#"{"layers":[{"writes":1,"opaques":2,"whiteouts":3}]}"#).1,
        "invalid input: invalid type: integer `2`, expected a sequence"
    );
}

#[test]
fn arrays_do_not_stand_for_objects() {
    for text in ["[]", "[[]]", "[[{}]]", "[[{}],1,2]", r#"[[[["a"],["d"],["w"],["d"]]]]"#] {
        assert_eq!(
            refusal(text),
            (
                ErrorCode::InvalidInput,
                "invalid input: invalid type: sequence, expected struct Input".to_string()
            ),
            "input: {text}"
        );
    }
    for text in [r#"{"layers":[[]]}"#, r#"{"layers":[{},[["a"]]]}"#, r#"{"layers":[[0]]}"#] {
        assert_eq!(
            refusal(text),
            (
                ErrorCode::InvalidInput,
                "invalid input: invalid type: sequence, expected struct LayerInput".to_string()
            ),
            "input: {text}"
        );
    }
}

#[test]
fn missing_lists_are_empty_lists() {
    let short = accepted(r#"{"layers":[{"writes":["a"]}]}"#);
    let long =
        accepted(r#"{"layers":[{"writes":["a"],"mkdirs":[],"whiteouts":[],"opaques":[]}]}"#);
    for input in [&short, &long] {
        assert_eq!(input.layers[0].writes, vec!["a"]);
        assert_eq!(input.layers[0].records(), 1);
    }
}

#[test]
fn text_that_is_no_json_is_refused_with_the_reason() {
    for text in ["", "this is not json", "{\"layers\":", "[1,]", "{} {}", "\"\\ud800\"", "1e999"] {
        let theirs = serde_json::from_str::<Value>(text).unwrap_err().to_string();
        assert_eq!(refusal(text), (ErrorCode::InvalidJson, format!("invalid JSON: {theirs}")));
    }
}

#[test]
fn the_last_of_equal_keys_counts() {
    let input = accepted(r#"{"layers":[{"writes":["a"],"writes":["b","c"]}]}"#);
    assert_eq!(input.layers[0].writes, vec!["b", "c"]);
}

#[test]
fn nesting_is_read_up_to_a_limit() {
    let nested = |n: usize| format!("{}{}", "[".repeat(n), "]".repeat(n));
    assert!(read_json(&nested(127)).is_ok());
    assert_eq!(
        read_json(&nested(128)).unwrap_err(),
        "recursion limit exceeded at line 1 column 128"
    );
}

#[test]
fn documents_are_read_as_they_are() {
    let doc = read_json(r#"{"b":[null,true,7,-7,2.5,"x"],"a":{}}"#).unwrap();
    match doc {
        Json::Object(members) => {
            assert_eq!(members.len(), 2);
            assert_eq!(members[0].key, "b");
            assert_eq!(members[1].key, "a");
            assert!(matches!(&members[1].value, Json::Object(m) if m.is_empty()));
            match &members[0].value {
                Json::List(items) => {
                    assert_eq!(items.len(), 6);
                    assert!(matches!(items[0], Json::Null));
                    assert!(matches!(items[1], Json::Bool(true)));
                    assert!(matches!(items[2], Json::Unsigned(7)));
                    assert!(matches!(items[3], Json::Negative(-7)));
                    assert!(matches!(&items[4], Json::Fraction(t) if t == "2.5"));
                    assert!(matches!(&items[5], Json::Text(t) if t == "x"));
                }
                other => panic!("no list: {other:?}"),
            }
        }
        other => panic!("no object: {other:?}"),
    }
}

#[test]
fn documents_can_be_decoded_without_text() {
    let layer = Json::Object(vec![
        member("opaques", Json::List(vec![])),
        member("writes", Json::List(vec![Json::Text("a/b".to_string())])),
    ]);
    let doc = Json::Object(vec![member("layers", Json::List(vec![layer]))]);
    let layers = document_layers(&doc).unwrap();
    assert_eq!(layers.len(), 1);
    assert_eq!(layers[0].writes, vec!["a/b"]);
    assert_eq!(layers[0].records(), 1);
    assert_eq!(
        document_layers(&Json::Negative(-12)).unwrap_err(),
        "invalid type: integer `-12`, expected struct Input"
    );
}

fn list(paths: &[&str]) -> Vec<String> {
    paths.iter().map(|p| p.to_string()).collect()
}

#[test]
fn inputs_are_written_field_by_field() {
    let input = Input {
        layers: vec![
            LayerInput { writes: list(&["b", "a/\"q\""]), ..Default::default() },
            LayerInput { mkdirs: list(&["d"]), opaques: list(&["d"]), ..Default::default() },
        ],
    };
    assert_eq!(
        input_json(&input, false),
        [
            r#"{"layers":[{"writes":["b","a/\"q\""],"mkdirs":[],"whiteouts":[],"opaques":[]},"#,
            r#"{"writes":[],"mkdirs":["d"],"whiteouts":[],"opaques":["d"]}]}"#,
        ]
        .concat()
    );
    assert!(input_json(&input, true).starts_with("{\n  \"layers\": [\n    {\n      \"writes\": ["));
}

#[test]
fn a_written_input_is_parsed_back() {
    let input = Input {
        layers: vec![
            LayerInput {
                writes: list(&["z", "a/b", "a/c"]),
                mkdirs: list(&["m", "k/l"]),
                whiteouts: list(&["w/x", "w"]),
                opaques: list(&["m", "a"]),
            },
            LayerInput::default(),
            LayerInput { whiteouts: list(&["\\ ~"]), ..Default::default() },
        ],
    };
    for pretty in [false, true] {
        let back = accepted(&input_json(&input, pretty));
        assert_eq!(back.layers.len(), input.layers.len());
        for (x, y) in back.layers.iter().zip(&input.layers) {
            assert_eq!(x.writes, y.writes);
            assert_eq!(x.mkdirs, y.mkdirs);
            assert_eq!(x.whiteouts, y.whiteouts);
            assert_eq!(x.opaques, y.opaques);
        }
    }
}

#[test]
fn a_written_input_is_refused_for_what_is_wrong_with_it() {
    let empty = Input { layers: vec![] };
    assert_eq!(
        refusal(&input_json(&empty, false)),
        (ErrorCode::InvalidInput, "expected 1..=30 layers, got 0".to_string())
    );
    let bad = Input {
        layers: vec![LayerInput { mkdirs: list(&["ok", "/abs"]), ..Default::default() }],
    };
    let e = parse_input(&input_json(&bad, true)).unwrap_err();
    assert_eq!((e.code, e.layer, e.path.as_deref()), (ErrorCode::InvalidPath, Some(0), Some("/abs")));
}
