//! The help text of the command line.
use vstd::prelude::*;

verus! {

/// How the program is called.
pub const USAGE: &'static str = "\
layer-merge — merge OCI-style image layers (whiteouts & opaque directories)

USAGE:
    layer-merge [--pretty] < input.json
    layer-merge --help

Reads a JSON document from stdin describing 1..=30 layers (at most 3000
path records in total) and writes the merged result as JSON to stdout.

INPUT:
    {\"layers\": [{\"writes\": [...], \"mkdirs\": [...],
                  \"whiteouts\": [...], \"opaques\": [...]}, ...]}

EXIT CODES:
    0  merge succeeded
    1  the layers are semantically invalid (conflicts, bad paths, ...)
    2  the input is not well-formed JSON / violates the schema or limits
";

} // verus!
