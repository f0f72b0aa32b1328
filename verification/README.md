# layer-merge

Merges 1 to 30 OCI-style image layers (file writes, directory creations,
whiteouts, opaque directories) into the file-system view that they add up to, and
answers three questions:

1. what the final directory tree looks like,
2. which layer each surviving file comes from,
3. which paths once existed and are hidden now, why, and by which layer.

The library is written in Verus: every function carries a contract, and the
contracts are proved.

## Input

```json
{"layers": [{"writes":    ["app/main.py"],
             "mkdirs":    ["data"],
             "whiteouts": ["etc/old.conf"],
             "opaques":   ["data"]}]}
```

The member `layers` is required; the four lists may be left out. Anything else is
refused, arrays in place of objects too. All lists together hold at most 3000 records.
Paths are canonical: printable ASCII segments joined by single slashes, none of
them `.` or `..`, at most 512 bytes.

## Merging

Layers apply bottom-up. Within a layer, whiteouts and opaque markers act on the
lower image first; then the layer's directories and files are created. The order in
which a layer lists its records makes no difference. A layer that contradicts itself,
marks something opaque that is no directory, or creates a path beneath a file is refused
with the whole input.

## Layout

- `src/path.rs`, `src/validate.rs`: paths, their order, ancestors, the canonical form
- `src/types.rs`: layers, merged images and errors
- `src/model.rs`: what merging means, as mathematics
- `src/catalog.rs`, `src/engine.rs`, `src/checks.rs`, `src/apply.rs`, `src/tree.rs`,
  `src/merge.rs`: the merge engine, proved against the model
- `src/json.rs`, `src/wire.rs`: JSON documents, and text through `serde_json`
- `src/schema.rs`, `src/input.rs`: from a document to checked layers
- `src/report.rs`, `src/encode.rs`: from a merged image, an error or an input to a
  document
- `src/laws.rs`: what holds of merging as a whole
- `app/`: the command line

What is taken on trust stands in `src/wire.rs` (calls of `serde_json`),
`src/schema.rs` (quoting of strings) and at the top of `src/types.rs` (conversions
into `String`); each of these says what it relies on.

## Exit codes

| code | meaning |
|---|---|
| 0 | merged |
| 1 | the layers are semantically invalid |
| 2 | no well-formed JSON, or outside the schema or the limits |
