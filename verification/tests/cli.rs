//! What the program writes and with which exit code it ends, short of the
//! process itself.

use layer_merge::{err_json, ok_json, run};
use serde_json::Value;

/// The documented example.
const SAMPLE: &str = r#"{
  "layers": [
    {
      "mkdirs": ["data"],
      "writes": ["app/main.py", "app/util/helpers.py", "etc/config.yml",
                 "data/old_a.csv", "data/old_b.csv"]
    },
    {
      "writes": ["app/main.py", "data/fresh.csv"],
      "whiteouts": ["etc/config.yml"],
      "opaques": ["data"]
    },
    {
      "writes": ["etc/config.yml", "app/util/cache.py"]
    }
  ]
}"#;

/// The exit code and the line on standard output.
fn run_cli(stdin: &str, args: &[&str]) -> (i32, String) {
    let pretty = args.contains(&"--pretty");
    match run(stdin) {
        Ok(output) => (0, ok_json(&output, pretty)),
        Err(err) => (i32::from(err.exit_code()), err_json(&err, pretty)),
    }
}

#[test]
fn merges_stdin_to_stdout() {
    let (code, stdout) = run_cli(SAMPLE, &[]);
    assert_eq!(code, 0);
    let v: Value = serde_json::from_str(&stdout).unwrap();
    assert_eq!(v["ok"], true);
    assert_eq!(v["stats"]["layers"], 3);
    let files = v["files"].as_array().unwrap();
    let main = files.iter().find(|f| f["path"] == "app/main.py").unwrap();
    assert_eq!(main["source_layer"], 1);
}

#[test]
fn semantic_errors_exit_1_with_json_error() {
    let (code, stdout) =
        run_cli(r#"{"layers":[{"writes":["a"]},{"writes":["a/b"]}]}"#, &[]);
    assert_eq!(code, 1);
    let v: Value = serde_json::from_str(&stdout).unwrap();
    assert_eq!(v["ok"], false);
    assert_eq!(v["error"]["code"], "file_as_parent");
    assert_eq!(v["error"]["layer"], 1);
    assert_eq!(v["error"]["path"], "a/b");
}

#[test]
fn malformed_input_exits_2() {
    let (code, stdout) = run_cli("not json at all", &[]);
    assert_eq!(code, 2);
    let v: Value = serde_json::from_str(&stdout).unwrap();
    assert_eq!(v["ok"], false);
    assert_eq!(v["error"]["code"], "invalid_json");

    let (code, stdout) = run_cli(r#"{"layers":[]}"#, &[]);
    assert_eq!(code, 2);
    let v: Value = serde_json::from_str(&stdout).unwrap();
    assert_eq!(v["error"]["code"], "invalid_input");
}

#[test]
fn pretty_flag_only_changes_formatting() {
    let input = SAMPLE;
    let (code_c, compact) = run_cli(input, &[]);
    let (code_p, pretty) = run_cli(input, &["--pretty"]);
    assert_eq!((code_c, code_p), (0, 0));
    assert!(pretty.contains('\n'));
    assert!(!compact.trim().contains('\n'));
    assert_eq!(
        serde_json::from_str::<Value>(&compact).unwrap(),
        serde_json::from_str::<Value>(&pretty).unwrap()
    );
}
