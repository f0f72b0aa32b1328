//! What holds of merging as a whole, on concrete layers.

use layer_merge::{
    merge, parse_input, ErrorCode, Input, Kind, LayerInput, MergeError, Obscured, Output, Reason,
    TreeNode,
};

fn list(paths: &[&str]) -> Vec<String> {
    paths.iter().map(|p| p.to_string()).collect()
}

fn layer(writes: &[&str], mkdirs: &[&str], whiteouts: &[&str], opaques: &[&str]) -> LayerInput {
    LayerInput {
        writes: list(writes),
        mkdirs: list(mkdirs),
        whiteouts: list(whiteouts),
        opaques: list(opaques),
    }
}

fn merged(layers: &[LayerInput]) -> Output {
    merge(&Input { layers: layers.to_vec() })
        .unwrap_or_else(|e| panic!("refused: {}", e.to_string()))
}

fn refused(layers: &[LayerInput]) -> MergeError {
    merge(&Input { layers: layers.to_vec() }).unwrap_err()
}

/// Every node of the tree beneath the root, with its kind and source.
fn nodes(node: &TreeNode) -> Vec<(String, Kind, usize)> {
    let mut all = Vec::new();
    for c in &node.children {
        all.push((c.path.clone(), c.kind, c.source_layer.unwrap()));
        all.extend(nodes(c));
    }
    all
}

fn node(out: &Output, path: &str) -> Option<(Kind, usize)> {
    nodes(&out.tree).into_iter().find(|n| n.0 == path).map(|n| (n.1, n.2))
}

fn event(path: &str, source: usize, reason: Reason, by: usize, via: Option<&str>) -> Obscured {
    Obscured {
        path: path.to_string(),
        source_layer: source,
        reason,
        by_layer: by,
        via: via.map(str::to_string),
    }
}

/// Layers that exercise everything at once.
fn busy() -> Vec<LayerInput> {
    vec![
        layer(&["a/b/c", "a/x", "f", "g/h"], &["e"], &[], &[]),
        layer(&["f", "g"], &["a/x"], &["a/b"], &["e"]),
        layer(&["a/b/c", "a/x/y", "e/z"], &["g"], &["g"], &["a"]),
        layer(&["n"], &[], &["f", "nothing"], &[]),
    ]
}

#[test]
fn parents_of_live_paths_are_live_directories() {
    for n in 1..=4 {
        let out = merged(&busy()[..n]);
        let all = nodes(&out.tree);
        for (path, _, _) in &all {
            if let Some((parent, _)) = path.rsplit_once('/') {
                assert!(all.iter().any(|x| x.0 == parent && x.1 == Kind::Dir), "above {path}");
            }
        }
    }
}

#[test]
fn sources_are_layers_and_stay_until_something_changes() {
    let layers = busy();
    for n in 1..=layers.len() {
        for (path, kind, source) in nodes(&merged(&layers[..n]).tree) {
            assert!(source < n);
            for k in source + 1..=n {
                assert_eq!(node(&merged(&layers[..k]), &path), Some((kind, source)));
            }
        }
    }
}

#[test]
fn what_disappears_is_logged_and_nothing_else() {
    let layers = busy();
    for n in 1..layers.len() {
        let below = merged(&layers[..n]);
        let above = merged(&layers[..=n]);
        let by_this: Vec<&Obscured> =
            above.obscured.iter().filter(|o| o.by_layer == n).collect();
        for (path, kind, source) in nodes(&below.tree) {
            let kept = node(&above, &path) == Some((kind, source));
            let logged = by_this.iter().filter(|o| o.path == path).count();
            assert_eq!(logged, usize::from(!kept), "layer {n}, path {path}");
        }
        for o in by_this {
            assert_eq!(node(&below, &o.path).map(|x| x.1), Some(o.source_layer));
        }
    }
}

#[test]
fn the_log_only_grows() {
    let layers = busy();
    let whole = merged(&layers).obscured;
    for n in 1..=layers.len() {
        let part: Vec<Obscured> = whole.iter().filter(|o| o.by_layer < n).cloned().collect();
        assert_eq!(merged(&layers[..n]).obscured, part);
    }
}

#[test]
fn the_log_is_in_order_of_layer_and_path() {
    let out = merged(&busy());
    assert!(out.obscured.len() > 5);
    for pair in out.obscured.windows(2) {
        assert!((pair[0].by_layer, &pair[0].path) < (pair[1].by_layer, &pair[1].path));
    }
}

#[test]
fn totals_add_up() {
    let out = merged(&busy());
    let all = nodes(&out.tree);
    assert_eq!(out.stats.layers, 4);
    assert_eq!(out.stats.files, out.files.len());
    assert_eq!(out.stats.files + out.stats.dirs, all.len());
    assert_eq!(out.stats.dirs, all.iter().filter(|n| n.1 == Kind::Dir).count());
    assert_eq!(out.stats.obscured, out.obscured.len());
    let files: Vec<(String, usize)> =
        all.iter().filter(|n| n.1 == Kind::File).map(|n| (n.0.clone(), n.2)).collect();
    let mut listed: Vec<(String, usize)> =
        out.files.iter().map(|f| (f.path.clone(), f.source_layer)).collect();
    assert!(listed.windows(2).all(|w| w[0].0 < w[1].0));
    listed.sort();
    let mut sorted_files = files;
    sorted_files.sort();
    assert_eq!(listed, sorted_files);
}

#[test]
fn siblings_are_in_path_order() {
    let out = merged(&[layer(&["a/x", "a!", "b", "a-b/c"], &[], &[], &[])]);
    let top: Vec<&str> = out.tree.children.iter().map(|c| c.path.as_str()).collect();
    assert_eq!(top, vec!["a", "a!", "a-b", "b"]);
    assert_eq!((out.tree.kind, out.tree.path.as_str(), out.tree.source_layer), (Kind::Dir, "", None));
}

#[test]
fn a_deleted_path_comes_back_as_something_new() {
    let out = merged(&[
        layer(&["p/q"], &[], &[], &[]),
        layer(&[], &[], &["p"], &[]),
        layer(&["other"], &[], &[], &[]),
        layer(&["p/q"], &[], &[], &[]),
    ]);
    assert_eq!(node(&out, "p"), Some((Kind::Dir, 3)));
    assert_eq!(node(&out, "p/q"), Some((Kind::File, 3)));
}

#[test]
fn the_topmost_whiteout_is_responsible() {
    let out = merged(&[
        layer(&["a/b/c/d"], &[], &[], &[]),
        layer(&[], &[], &["a/b/c", "a/b", "a/b/c/d"], &[]),
    ]);
    assert_eq!(
        out.obscured,
        vec![
            event("a/b", 0, Reason::Whiteout, 1, None),
            event("a/b/c", 0, Reason::WhiteoutAncestor, 1, Some("a/b")),
            event("a/b/c/d", 0, Reason::WhiteoutAncestor, 1, Some("a/b")),
        ]
    );
}

#[test]
fn a_dangling_whiteout_changes_nothing() {
    let mut layers = busy();
    let before = merged(&layers);
    layers[2].whiteouts.push("ghost/deep".to_string());
    layers[0].whiteouts.push("a".to_string());
    assert_eq!(merged(&layers), before);
}

#[test]
fn an_opaque_directory_stays_and_its_children_go() {
    let out = merged(&[
        layer(&["d/x", "d/s/y"], &[], &[], &[]),
        layer(&["d/s/new"], &[], &[], &["d"]),
    ]);
    assert_eq!(node(&out, "d"), Some((Kind::Dir, 0)));
    assert_eq!(node(&out, "d/s"), Some((Kind::Dir, 1)));
    assert_eq!(node(&out, "d/x"), None);
    assert_eq!(
        out.obscured,
        vec![
            event("d/s", 0, Reason::OpaqueAncestor, 1, Some("d")),
            event("d/s/y", 0, Reason::OpaqueAncestor, 1, Some("d")),
            event("d/x", 0, Reason::OpaqueAncestor, 1, Some("d")),
        ]
    );
}

#[test]
fn an_opaque_directory_may_be_replaced_by_a_file() {
    let out = merged(&[layer(&["d/x"], &[], &[], &[]), layer(&["d"], &[], &[], &["d"])]);
    assert_eq!(node(&out, "d"), Some((Kind::File, 1)));
    assert_eq!(
        out.obscured,
        vec![
            event("d", 0, Reason::ReplacedByFile, 1, None),
            event("d/x", 0, Reason::OpaqueAncestor, 1, Some("d")),
        ]
    );
}

#[test]
fn a_file_marked_opaque_is_refused_even_where_it_becomes_a_directory() {
    let e = refused(&[layer(&["f"], &[], &[], &[]), layer(&[], &["f"], &[], &["f"])]);
    assert_eq!(
        e,
        MergeError::new(ErrorCode::InvalidOpaque, "opaque path 'f' is a file, not a directory")
            .at(1, "f")
    );
}

#[test]
fn parents_are_created_where_they_are_missing() {
    let out = merged(&[layer(&["a/b/f"], &[], &[], &[]), layer(&["a/c/d/g"], &["h/i"], &[], &[])]);
    assert_eq!(node(&out, "a"), Some((Kind::Dir, 0)));
    assert_eq!(node(&out, "a/c"), Some((Kind::Dir, 1)));
    assert_eq!(node(&out, "a/c/d"), Some((Kind::Dir, 1)));
    assert_eq!(node(&out, "h"), Some((Kind::Dir, 1)));
    assert!(out.obscured.is_empty());
}

#[test]
fn a_file_is_no_parent_unless_it_makes_way() {
    let base = layer(&["a/f"], &[], &[], &[]);
    let e = refused(&[base.clone(), layer(&["a/f/x/y"], &[], &[], &[])]);
    assert_eq!(
        e,
        MergeError::new(
            ErrorCode::FileAsParent,
            "file 'a/f' cannot serve as a parent directory of 'a/f/x/y'"
        )
        .at(1, "a/f/x/y")
    );
    let made_way = [
        layer(&["a/f/x/y"], &[], &["a/f"], &[]),
        layer(&["a/f/x/y"], &[], &["a"], &[]),
        layer(&["a/f/x/y"], &["a/f"], &[], &[]),
    ];
    for l in made_way {
        let out = merged(&[base.clone(), l]);
        assert_eq!(node(&out, "a/f"), Some((Kind::Dir, 1)));
    }
    // An opaque marker above the file does not make it go away in time.
    let e = refused(&[base, layer(&["a/f/x/y"], &[], &[], &["a"])]);
    assert_eq!(e.code, ErrorCode::FileAsParent);
}

#[test]
fn an_empty_layer_changes_nothing() {
    let mut layers = busy();
    let before = merged(&layers);
    layers.push(LayerInput::default());
    let after = merged(&layers);
    assert_eq!(after.tree, before.tree);
    assert_eq!(after.obscured, before.obscured);
    assert_eq!(after.stats.layers, 5);
}

#[test]
fn the_order_of_records_makes_no_difference() {
    let mut layers = busy();
    let before = merged(&layers);
    for l in &mut layers {
        l.writes.reverse();
        l.mkdirs.reverse();
        l.whiteouts.reverse();
        l.opaques.reverse();
    }
    assert_eq!(merged(&layers), before);
}

#[test]
fn the_order_of_members_makes_no_difference() {
    let a = parse_input(r#"{"layers":[{"writes":["w"],"mkdirs":["m"],"opaques":["m"]}]}"#);
    let b = parse_input(r#"{"layers":[{"opaques":["m"],"mkdirs":["m"],"writes":["w"]}]}"#);
    assert_eq!(merge(&a.unwrap()), merge(&b.unwrap()));
}

#[test]
fn conflicts_within_a_layer_are_named_in_a_fixed_order() {
    let cases = [
        (layer(&["b", "a", "b", "a"], &["x", "x"], &[], &[]), "duplicate path 'b' in writes", "b"),
        (layer(&[], &["x", "x"], &["y", "y"], &[]), "duplicate path 'x' in mkdirs", "x"),
        (layer(&[], &[], &["y", "y"], &["z", "z"]), "duplicate path 'y' in whiteouts", "y"),
        (layer(&["a", "a/b"], &[], &[], &["z", "z"]), "duplicate path 'z' in opaques", "z"),
        (
            layer(&["d", "d/e", "b", "b/c"], &[], &["q"], &["q"]),
            "path 'b' is both a file (writes) and a directory",
            "b",
        ),
        (
            layer(&[], &[], &["a", "b"], &["c", "b", "a"]),
            "path 'b' is both a whiteout and an opaque directory",
            "b",
        ),
    ];
    for (l, message, path) in cases {
        let e = refused(&[LayerInput::default(), l]);
        assert_eq!(e, MergeError::new(ErrorCode::LayerConflict, message).at(1, path));
        assert_eq!(e.exit_code(), 1);
    }
}

#[test]
fn conflicts_come_before_opaque_markers_and_those_before_parents() {
    let base = layer(&["f"], &[], &[], &[]);
    let e = refused(&[base.clone(), layer(&["f/x"], &[], &[], &["z", "missing"])]);
    assert_eq!(
        e,
        MergeError::new(
            ErrorCode::InvalidOpaque,
            "opaque directory 'missing' exists neither in lower layers nor in this layer"
        )
        .at(1, "missing")
    );
    let e = refused(&[base.clone(), layer(&["f/x", "f/x"], &[], &[], &["missing"])]);
    assert_eq!(e.code, ErrorCode::LayerConflict);
    let e = refused(&[base, layer(&["g/x", "f/z"], &["f/y/k"], &[], &[])]);
    assert_eq!(e.path.as_deref(), Some("f/y/k"));
}

#[test]
fn the_first_layer_that_does_not_fit_is_reported() {
    let bad = layer(&["x", "x"], &[], &[], &[]);
    let mut layers = busy();
    layers.push(bad.clone());
    let e = refused(&layers);
    assert_eq!(e.layer, Some(4));
    layers.push(layer(&[], &[], &[], &["nowhere"]));
    assert_eq!(refused(&layers), e);
    layers.insert(0, bad);
    assert_eq!(refused(&layers).layer, Some(0));
}

#[test]
fn merging_nothing_gives_an_empty_image() {
    let out = merged(&[]);
    assert!(out.tree.children.is_empty() && out.files.is_empty() && out.obscured.is_empty());
    assert_eq!((out.stats.layers, out.stats.files, out.stats.dirs, out.stats.obscured), (0, 0, 0, 0));
}
