//! The types that callers see: layers, the merged view and errors, each with
//! the mathematical value that it stands for.
use vstd::prelude::*;
use crate::path::{paths, Path};
use crate::text::{decimal, decimal_text};

verus! {

/// `String::from` on a string slice: the new string holds the same characters.
pub assume_specification<'a>[ <String as core::convert::From<&'a str>>::from ](s: &str) -> (r:
    String)
    ensures
        r@ == s@,
;

/// `T::from` on a value of type `T` itself: the value comes back as it is.
pub assume_specification<T>[ <T as core::convert::From<T>>::from ](t: T) -> (r: T)
    ensures
        r == t,
;

// ---------------------------------------------------------------------------
// Input
// ---------------------------------------------------------------------------

/// What one layer does.
#[derive(Debug, Clone)]
pub struct LayerInput {
    /// Files written by this layer.
    pub writes: Vec<String>,
    /// Directories explicitly created by this layer.
    pub mkdirs: Vec<String>,
    /// Whiteout paths: files and directories of lower layers deleted by this layer.
    pub whiteouts: Vec<String>,
    /// Opaque directories: every lower-layer child of these is hidden.
    pub opaques: Vec<String>,
}

/// A layer as four sequences of paths.
pub struct LayerView {
    pub writes: Seq<Path>,
    pub mkdirs: Seq<Path>,
    pub whiteouts: Seq<Path>,
    pub opaques: Seq<Path>,
}

impl View for LayerInput {
    type V = LayerView;

    open spec fn view(&self) -> LayerView {
        LayerView {
            writes: paths(self.writes@),
            mkdirs: paths(self.mkdirs@),
            whiteouts: paths(self.whiteouts@),
            opaques: paths(self.opaques@),
        }
    }
}

impl LayerView {
    /// The number of path records of the layer.
    pub open spec fn records(self) -> nat {
        self.writes.len() + self.mkdirs.len() + self.whiteouts.len() + self.opaques.len()
    }
}

impl Default for LayerInput {
    fn default() -> (r: LayerInput)
        ensures
            r.writes.len() == 0,
            r.mkdirs.len() == 0,
            r.whiteouts.len() == 0,
            r.opaques.len() == 0,
    {
        LayerInput {
            writes: Vec::new(),
            mkdirs: Vec::new(),
            whiteouts: Vec::new(),
            opaques: Vec::new(),
        }
    }
}

impl LayerInput {
    /// The number of path records of the layer.
    pub fn records(&self) -> (r: usize)
        requires
            self@.records() <= usize::MAX,
        ensures
            r == self@.records(),
    {
        self.writes.len() + self.mkdirs.len() + self.whiteouts.len() + self.opaques.len()
    }
}

/// The layers of an image, lowest first.
#[derive(Debug, Clone)]
pub struct Input {
    pub layers: Vec<LayerInput>,
}

/// The layers that a vector holds.
pub open spec fn layer_views(v: Seq<LayerInput>) -> Seq<LayerView> {
    v.map_values(|l: LayerInput| l@)
}

impl View for Input {
    type V = Seq<LayerView>;

    open spec fn view(&self) -> Seq<LayerView> {
        layer_views(self.layers@)
    }
}

// ---------------------------------------------------------------------------
// Output
// ---------------------------------------------------------------------------

/// What stands at a path.
#[derive(Debug, Clone, Copy, PartialEq, Eq, Structural)]
pub enum Kind {
    File,
    Dir,
}

/// A node of the merged tree.
#[derive(Debug, PartialEq, Eq)]
pub struct TreeNode {
    pub kind: Kind,
    pub path: String,
    /// Layer that created this node; `None` for the synthetic root.
    pub source_layer: Option<usize>,
    pub children: Vec<TreeNode>,
}

/// A tree, as values.
pub struct TreeView {
    pub kind: Kind,
    pub path: Path,
    pub source_layer: Option<nat>,
    pub children: Seq<TreeView>,
}

/// The tree that hangs from a node.
pub open spec fn tree_view(node: TreeNode) -> TreeView
    decreases node,
{
    TreeView {
        kind: node.kind,
        path: node.path@,
        source_layer: index_view(node.source_layer),
        children: Seq::new(
            node.children@.len(),
            |i: int|
                if 0 <= i < node.children@.len() {
                    tree_view(node.children@[i])
                } else {
                    arbitrary()
                },
        ),
    }
}

impl View for TreeNode {
    type V = TreeView;

    open spec fn view(&self) -> TreeView {
        tree_view(*self)
    }
}

impl Clone for TreeNode {
    fn clone(&self) -> (r: TreeNode)
        ensures
            r@ == self@,
        decreases self,
    {
        let mut children: Vec<TreeNode> = Vec::new();
        let mut i: usize = 0;
        while i < self.children.len()
            invariant
                i <= self.children.len(),
                children.len() == i,
                forall|j: int| 0 <= j < i ==> children@[j]@ == self.children@[j]@,
            decreases self.children.len() - i,
        {
            children.push(self.children[i].clone());
            i += 1;
        }
        let r = TreeNode {
            kind: self.kind,
            path: self.path.clone(),
            source_layer: self.source_layer,
            children,
        };
        assert(r@.children =~= self@.children);
        r
    }
}

/// A surviving file and the layer it comes from.
#[derive(Debug, Clone, PartialEq, Eq)]
pub struct FileSource {
    pub path: String,
    pub source_layer: usize,
}

/// A file and its layer, as values.
pub struct FileView {
    pub path: Path,
    pub source_layer: nat,
}

impl View for FileSource {
    type V = FileView;

    open spec fn view(&self) -> FileView {
        FileView { path: self.path@, source_layer: self.source_layer as nat }
    }
}

/// Why a path that once existed no longer shows up (with its old source).
#[derive(Debug, Clone, Copy, PartialEq, Eq, PartialOrd, Ord, Structural)]
pub enum Reason {
    /// A file was rewritten by a later layer at the same path.
    Overwritten,
    /// The path itself was named by a whiteout.
    Whiteout,
    /// An ancestor directory was named by a whiteout (`via` = whiteout path).
    WhiteoutAncestor,
    /// An ancestor directory was marked opaque (`via` = opaque directory).
    OpaqueAncestor,
    /// A directory's path was taken over by a file write.
    ReplacedByFile,
    /// A file's path was taken over by a directory creation.
    ReplacedByDir,
    /// An ancestor directory was replaced by a file (`via` = replaced path).
    ReplacedAncestor,
}

/// One entry of the log of hidden paths.
#[derive(Debug, PartialEq, Eq)]
pub struct Obscured {
    pub path: String,
    /// Layer that created the now-hidden version of `path`.
    pub source_layer: usize,
    pub reason: Reason,
    /// Layer whose action hid the path.
    pub by_layer: usize,
    /// The whiteout path, opaque directory or replaced directory responsible, if any.
    pub via: Option<String>,
}

/// A log entry, as values.
pub struct ObscuredView {
    pub path: Path,
    pub source_layer: nat,
    pub reason: Reason,
    pub by_layer: nat,
    pub via: Option<Path>,
}

/// The text that an optional string holds.
pub open spec fn text_view(o: Option<String>) -> Option<Seq<char>> {
    match o {
        Some(s) => Some(s@),
        None => None,
    }
}

impl View for Obscured {
    type V = ObscuredView;

    open spec fn view(&self) -> ObscuredView {
        ObscuredView {
            path: self.path@,
            source_layer: self.source_layer as nat,
            reason: self.reason,
            by_layer: self.by_layer as nat,
            via: text_view(self.via),
        }
    }
}

impl Clone for Obscured {
    fn clone(&self) -> (r: Obscured)
        ensures
            r@ == self@,
    {
        Obscured {
            path: self.path.clone(),
            source_layer: self.source_layer,
            reason: self.reason,
            by_layer: self.by_layer,
            via: match &self.via {
                Some(v) => Some(v.clone()),
                None => None,
            },
        }
    }
}

/// The log entries that a vector holds.
pub open spec fn log_views(v: Seq<Obscured>) -> Seq<ObscuredView> {
    v.map_values(|o: Obscured| o@)
}

/// The files that a vector holds.
pub open spec fn file_views(v: Seq<FileSource>) -> Seq<FileView> {
    v.map_values(|f: FileSource| f@)
}

/// Totals of a merge.
#[derive(Debug, Clone, PartialEq, Eq)]
pub struct Stats {
    pub layers: usize,
    pub files: usize,
    pub dirs: usize,
    pub obscured: usize,
}

/// The merged image.
#[derive(Debug, Clone, PartialEq, Eq)]
pub struct Output {
    pub tree: TreeNode,
    pub files: Vec<FileSource>,
    pub obscured: Vec<Obscured>,
    pub stats: Stats,
}

/// A merged image, as values.
pub struct OutputView {
    pub tree: TreeView,
    pub files: Seq<FileView>,
    pub obscured: Seq<ObscuredView>,
    pub stats: Stats,
}

impl View for Output {
    type V = OutputView;

    open spec fn view(&self) -> OutputView {
        OutputView {
            tree: self.tree@,
            files: file_views(self.files@),
            obscured: log_views(self.obscured@),
            stats: self.stats,
        }
    }
}

// ---------------------------------------------------------------------------
// Errors
// ---------------------------------------------------------------------------

/// The class of an error.
#[derive(Debug, Clone, Copy, PartialEq, Eq, PartialOrd, Ord, Structural)]
pub enum ErrorCode {
    InvalidJson,
    InvalidInput,
    InvalidPath,
    LayerConflict,
    InvalidOpaque,
    FileAsParent,
    Internal,
}

/// Why an input was refused.
#[derive(Debug, Clone, PartialEq, Eq)]
pub struct MergeError {
    pub code: ErrorCode,
    pub message: String,
    pub layer: Option<usize>,
    pub path: Option<String>,
}

/// An error, as values.
pub struct ErrorView {
    pub code: ErrorCode,
    pub message: Seq<char>,
    pub layer: Option<nat>,
    pub path: Option<Path>,
}

/// The value of an optional layer index.
pub open spec fn index_view(o: Option<usize>) -> Option<nat> {
    match o {
        Some(n) => Some(n as nat),
        None => None,
    }
}

impl View for MergeError {
    type V = ErrorView;

    open spec fn view(&self) -> ErrorView {
        ErrorView {
            code: self.code,
            message: self.message@,
            layer: index_view(self.layer),
            path: text_view(self.path),
        }
    }
}

impl ErrorView {
    /// An error of the input as a whole.
    pub open spec fn new(code: ErrorCode, message: Seq<char>) -> ErrorView {
        ErrorView { code, message, layer: None, path: None }
    }

    /// The same error, tied to a path of a layer.
    pub open spec fn at(self, layer: nat, path: Path) -> ErrorView {
        ErrorView { layer: Some(layer), path: Some(path), ..self }
    }

    /// The process exit code: 2 for malformed input, 1 for semantic rejection.
    pub open spec fn exit_code(self) -> u8 {
        if self.code is InvalidJson || self.code is InvalidInput {
            2
        } else {
            1
        }
    }

    /// The line that tells a person about the error.
    pub open spec fn line(self) -> Seq<char> {
        match (self.layer, self.path) {
            (Some(l), Some(p)) => "layer "@ + decimal(l) + ", path '"@ + p + "': "@ + self.message,
            (Some(l), None) => "layer "@ + decimal(l) + ": "@ + self.message,
            _ => self.message,
        }
    }
}

impl MergeError {
    /// An error of the input as a whole.
    pub fn new<S: Into<String>>(code: ErrorCode, message: S) -> (r: MergeError)
        ensures
            r.code == code,
            call_ensures(<S as Into<String>>::into, (message,), r.message),
            r.layer is None,
            r.path is None,
    {
        MergeError { code, message: message.into(), layer: None, path: None }
    }

    /// The same error, tied to a path of a layer.
    pub fn at<S: Into<String>>(self, layer: usize, path: S) -> (r: MergeError)
        ensures
            r.code == self.code,
            r.message == self.message,
            r.layer == Some(layer),
            r.path is Some,
            call_ensures(<S as Into<String>>::into, (path,), r.path->0),
    {
        MergeError {
            code: self.code,
            message: self.message,
            layer: Some(layer),
            path: Some(path.into()),
        }
    }

    /// Process exit code: 2 for malformed input, 1 for semantic rejection.
    pub fn exit_code(&self) -> (r: u8)
        ensures
            r == self@.exit_code(),
    {
        match self.code {
            ErrorCode::InvalidJson | ErrorCode::InvalidInput => 2,
            _ => 1,
        }
    }

    /// The line that tells a person about the error.
    pub fn to_string(&self) -> (r: String)
        ensures
            r@ == self@.line(),
    {
        match (self.layer, &self.path) {
            (Some(l), Some(p)) => {
                let mut s = String::from("layer ");
                s.append(decimal_text(l as u128).as_str());
                s.append(", path '");
                s.append(p.as_str());
                s.append("': ");
                s.append(self.message.as_str());
                s
            },
            (Some(l), None) => {
                let mut s = String::from("layer ");
                s.append(decimal_text(l as u128).as_str());
                s.append(": ");
                s.append(self.message.as_str());
                s
            },
            _ => self.message.clone(),
        }
    }
}

// ---------------------------------------------------------------------------
// What the views hold
// ---------------------------------------------------------------------------

/// The view of an input has its layers, one for one, and of each the four lists,
/// path for path.
pub proof fn law_input_view(input: Input, k: int)
    requires
        0 <= k < input.layers@.len(),
    ensures
        input@.len() == input.layers@.len(),
        input@[k].writes.len() == input.layers@[k].writes@.len(),
        forall|i: int|
            0 <= i < input@[k].writes.len() ==> #[trigger] input@[k].writes[i]
                == input.layers@[k].writes@[i]@,
        input@[k].mkdirs.len() == input.layers@[k].mkdirs@.len(),
        forall|i: int|
            0 <= i < input@[k].mkdirs.len() ==> #[trigger] input@[k].mkdirs[i]
                == input.layers@[k].mkdirs@[i]@,
        input@[k].whiteouts.len() == input.layers@[k].whiteouts@.len(),
        forall|i: int|
            0 <= i < input@[k].whiteouts.len() ==> #[trigger] input@[k].whiteouts[i]
                == input.layers@[k].whiteouts@[i]@,
        input@[k].opaques.len() == input.layers@[k].opaques@.len(),
        forall|i: int|
            0 <= i < input@[k].opaques.len() ==> #[trigger] input@[k].opaques[i]
                == input.layers@[k].opaques@[i]@,
        input@[k] == input.layers@[k]@,
{
}

/// An input without layers has none in its view.
pub proof fn law_input_view_len(input: Input)
    ensures
        input@.len() == input.layers@.len(),
{
}

/// The records of a layer are those of its four lists together.
pub proof fn law_records(layer: LayerView)
    ensures
        layer.records() == layer.writes.len() + layer.mkdirs.len() + layer.whiteouts.len()
            + layer.opaques.len(),
{
}

/// The view of a node has its fields, and the views of its children, one for one.
pub proof fn law_node_view(node: TreeNode)
    ensures
        node@.kind == node.kind,
        node@.path == node.path@,
        node.source_layer is None <==> node@.source_layer is None,
        node.source_layer is Some ==> node@.source_layer == Some(node.source_layer->0 as nat),
        node@.children.len() == node.children@.len(),
        forall|i: int|
            0 <= i < node.children@.len() ==> #[trigger] node@.children[i] == node.children@[i]@,
{
}

/// The views of files and log entries have their fields.
pub proof fn law_record_views(f: FileSource, o: Obscured)
    ensures
        f@.path == f.path@,
        f@.source_layer == f.source_layer,
        o@.path == o.path@,
        o@.source_layer == o.source_layer,
        o@.reason == o.reason,
        o@.by_layer == o.by_layer,
        o.via is None <==> o@.via is None,
        o.via is Some ==> o@.via == Some((o.via->0)@),
{
}

/// The view of an output has its tree, its files and log entries one for one, and
/// its totals.
pub proof fn law_output_view(out: Output)
    ensures
        out@.tree == out.tree@,
        out@.files.len() == out.files@.len(),
        forall|i: int| 0 <= i < out.files@.len() ==> #[trigger] out@.files[i] == out.files@[i]@,
        out@.obscured.len() == out.obscured@.len(),
        forall|i: int|
            0 <= i < out.obscured@.len() ==> #[trigger] out@.obscured[i] == out.obscured@[i]@,
        out@.stats == out.stats,
{
}

/// The view of an error has its fields.
pub proof fn law_error_view(e: MergeError)
    ensures
        e@.code == e.code,
        e@.message == e.message@,
        e.layer is None <==> e@.layer is None,
        e.layer is Some ==> e@.layer == Some(e.layer->0 as nat),
        e.path is None <==> e@.path is None,
        e.path is Some ==> e@.path == Some((e.path->0)@),
{
}

/// An error of the input as a whole names no place; put at a place, it keeps its
/// class and its message.
pub proof fn law_error_places(code: ErrorCode, message: Seq<char>, e: ErrorView, k: nat, p: Path)
    ensures
        ErrorView::new(code, message).code == code,
        ErrorView::new(code, message).message == message,
        ErrorView::new(code, message).layer is None,
        ErrorView::new(code, message).path is None,
        e.at(k, p).code == e.code,
        e.at(k, p).message == e.message,
        e.at(k, p).layer == Some(k),
        e.at(k, p).path == Some(p),
{
}

/// Malformed JSON and malformed input exit with 2, everything else with 1.
pub proof fn law_error_exit(e: ErrorView)
    ensures
        e.code == ErrorCode::InvalidJson || e.code == ErrorCode::InvalidInput ==> e.exit_code()
            == 2,
        e.code != ErrorCode::InvalidJson && e.code != ErrorCode::InvalidInput ==> e.exit_code()
            == 1,
{
}

/// The line of an error starts with its place, as far as that is known, and ends
/// with its message.
pub proof fn law_error_line(e: ErrorView)
    ensures
        e.layer is None ==> e.line() == e.message,
        e.layer is Some && e.path is None ==> e.line() == "layer "@ + decimal(e.layer->0) + ": "@
            + e.message,
        e.layer is Some && e.path is Some ==> e.line() == "layer "@ + decimal(e.layer->0)
            + ", path '"@ + e.path->0 + "': "@ + e.message,
{
}

/// The views of a run hold the views of its items, one for one.
pub proof fn law_run_views(ls: Seq<LayerInput>, os: Seq<Obscured>, fs: Seq<FileSource>)
    ensures
        layer_views(ls).len() == ls.len(),
        forall|i: int| 0 <= i < ls.len() ==> #[trigger] layer_views(ls)[i] == ls[i]@,
        log_views(os).len() == os.len(),
        forall|i: int| 0 <= i < os.len() ==> #[trigger] log_views(os)[i] == os[i]@,
        file_views(fs).len() == fs.len(),
        forall|i: int| 0 <= i < fs.len() ==> #[trigger] file_views(fs)[i] == fs[i]@,
{
}

/// The view of a layer has its four lists, path for path.
pub proof fn law_layer_view(l: LayerInput)
    ensures
        l@.writes.len() == l.writes@.len(),
        forall|i: int| 0 <= i < l.writes@.len() ==> #[trigger] l@.writes[i] == l.writes@[i]@,
        l@.mkdirs.len() == l.mkdirs@.len(),
        forall|i: int| 0 <= i < l.mkdirs@.len() ==> #[trigger] l@.mkdirs[i] == l.mkdirs@[i]@,
        l@.whiteouts.len() == l.whiteouts@.len(),
        forall|i: int|
            0 <= i < l.whiteouts@.len() ==> #[trigger] l@.whiteouts[i] == l.whiteouts@[i]@,
        l@.opaques.len() == l.opaques@.len(),
        forall|i: int| 0 <= i < l.opaques@.len() ==> #[trigger] l@.opaques[i] == l.opaques@[i]@,
{
}

} // verus!
