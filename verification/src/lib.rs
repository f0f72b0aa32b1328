//! layer-merge: merge OCI-style image layers into a single file-system view.
//!
//! Each layer contributes file writes, directory creations, whiteout paths and
//! opaque directories. Layers are applied bottom-up; within one layer the order
//! is fixed, and the order in which records are listed makes no difference:
//!
//! 1. whiteouts and opaque markers are resolved against the lower image
//!    (whiteouts delete paths, opaque markers hide every child of the marked
//!    directory),
//! 2. then the layer's own directories and files are created, with whatever
//!    parent directories are missing.
//!
//! A path deleted and later recreated under the same name is something new: it
//! reports the recreating layer as its source.
//!
//! What all this means is stated in [`model`]; that the code does it, in the
//! contracts of the functions; and what holds of merging as a whole, in [`laws`].
//! Path by path and entry by entry, what one layer does is said in [`engine_laws`], what
//! many layers add up to in [`merge_laws`], and what the report tells of it in
//! [`output_laws`]; what is read, refused and written, at the end of each other module.
pub mod text;
pub mod path;
pub mod types;
pub mod usage;
pub mod model;
mod catalog;
mod engine;
mod checks;
mod apply;
pub mod tree;
pub mod merge;
pub mod laws;
pub mod engine_laws;
pub mod merge_laws;
pub mod output_laws;
pub mod validate;
pub mod json;
pub mod wire;
pub mod schema;
pub mod input;
pub mod report;
pub mod encode;

pub use crate::encode::input_json;
pub use crate::input::{parse_input, run, MAX_LAYERS, MAX_RECORDS};
pub use crate::merge::merge;
pub use crate::report::{err_json, ok_json};
pub use crate::types::{
    ErrorCode, FileSource, Input, Kind, LayerInput, MergeError, Obscured, Output, Reason, Stats,
    TreeNode,
};
pub use crate::usage::USAGE;
pub use crate::validate::MAX_PATH_LEN;
