//! What merging means: the image that layers add up to, the log of what they
//! hide, and the layers that are refused.
use vstd::prelude::*;
use crate::path::{path_lt, under, Path};
use crate::types::{ErrorCode, ErrorView, Kind, LayerView, ObscuredView, Reason};

verus! {

/// What stands at a path, and the layer that put it there.
pub struct Node {
    pub kind: Kind,
    pub source: nat,
}

/// A file system without its root: every live path with what stands there.
pub type Image = Map<Path, Node>;

/// Every ancestor of a live path is a live directory.
pub open spec fn rooted(image: Image) -> bool {
    forall|p: Path, a: Path|
        image.contains_key(p) && #[trigger] under(p, a) ==> image.contains_key(a)
            && image[a].kind is Dir
}

// ---------------------------------------------------------------------------
// What a layer touches
// ---------------------------------------------------------------------------

/// Some path of `list` is a proper ancestor of `p`.
pub open spec fn below(list: Seq<Path>, p: Path) -> bool {
    exists|a: Path| #[trigger] list.contains(a) && under(p, a)
}

/// `p` is a proper ancestor of some path of `list`.
pub open spec fn above(list: Seq<Path>, p: Path) -> bool {
    exists|t: Path| #[trigger] list.contains(t) && under(t, p)
}

/// `a` is the shortest path of `list` that is a proper ancestor of `p`.
pub open spec fn is_topmost(list: Seq<Path>, p: Path, a: Path) -> bool {
    &&& list.contains(a)
    &&& under(p, a)
    &&& forall|b: Path| #[trigger] list.contains(b) && under(p, b) ==> a.len() <= b.len()
}

/// The shortest path of `list` that is a proper ancestor of `p`.
pub open spec fn topmost(list: Seq<Path>, p: Path) -> Path {
    choose|a: Path| is_topmost(list, p, a)
}

/// A whiteout of the layer deletes `p`, by naming it or one of its ancestors.
pub open spec fn whited_out(layer: LayerView, p: Path) -> bool {
    layer.whiteouts.contains(p) || below(layer.whiteouts, p)
}

/// An opaque marker of the layer hides `p`.
pub open spec fn cleared(layer: LayerView, p: Path) -> bool {
    below(layer.opaques, p)
}

/// The layer makes `p` a directory: explicitly, or as a parent of what it creates.
pub open spec fn makes_dir(layer: LayerView, p: Path) -> bool {
    layer.mkdirs.contains(p) || above(layer.mkdirs, p) || above(layer.writes, p)
}

/// `p` is still there once the whiteouts and opaque markers of the layer have acted.
pub open spec fn remains(image: Image, layer: LayerView, p: Path) -> bool {
    image.contains_key(p) && !whited_out(layer, p) && !cleared(layer, p)
}

// ---------------------------------------------------------------------------
// What a layer leaves
// ---------------------------------------------------------------------------

/// `p` is live once the layer has been applied.
pub open spec fn lives(image: Image, layer: LayerView, p: Path) -> bool {
    ||| layer.writes.contains(p)
    ||| makes_dir(layer, p)
    ||| remains(image, layer, p) && !below(layer.writes, p)
}

/// What stands at a live path once layer number `idx` has been applied: its own
/// files, its directories unless a directory was there before, and otherwise
/// what remains of the lower image.
pub open spec fn node_after(image: Image, layer: LayerView, idx: nat, p: Path) -> Node {
    if layer.writes.contains(p) {
        Node { kind: Kind::File, source: idx }
    } else if makes_dir(layer, p) && !(remains(image, layer, p) && image[p].kind is Dir) {
        Node { kind: Kind::Dir, source: idx }
    } else {
        image[p]
    }
}

/// The image once layer number `idx` has been applied to `image`.
pub open spec fn layer_image(image: Image, layer: LayerView, idx: nat) -> Image {
    Map::new(|p: Path| lives(image, layer, p), |p: Path| node_after(image, layer, idx, p))
}

/// Why, and through which path, the layer hides what the lower image has at `p`.
pub open spec fn hiding(image: Image, layer: LayerView, p: Path) -> Option<
    (Reason, Option<Path>),
> {
    if below(layer.whiteouts, p) {
        Some((Reason::WhiteoutAncestor, Some(topmost(layer.whiteouts, p))))
    } else if layer.whiteouts.contains(p) {
        Some((Reason::Whiteout, None))
    } else if cleared(layer, p) {
        Some((Reason::OpaqueAncestor, Some(topmost(layer.opaques, p))))
    } else if layer.writes.contains(p) {
        Some(
            (
                if image[p].kind is File {
                    Reason::Overwritten
                } else {
                    Reason::ReplacedByFile
                },
                None,
            ),
        )
    } else if below(layer.writes, p) {
        Some((Reason::ReplacedAncestor, Some(topmost(layer.writes, p))))
    } else if layer.mkdirs.contains(p) && image[p].kind is File {
        Some((Reason::ReplacedByDir, None))
    } else {
        None
    }
}

/// The log entry for what layer number `idx` hides at `p`, if it hides anything there.
pub open spec fn hidden(image: Image, layer: LayerView, idx: nat, p: Path) -> Option<
    ObscuredView,
> {
    if image.contains_key(p) {
        match hiding(image, layer, p) {
            Some((reason, via)) => Some(
                ObscuredView {
                    path: p,
                    source_layer: image[p].source,
                    reason,
                    by_layer: idx,
                    via,
                },
            ),
            None => None,
        }
    } else {
        None
    }
}

/// The log entries of layer number `idx`.
pub open spec fn layer_log(image: Image, layer: LayerView, idx: nat) -> Set<ObscuredView> {
    Set::new(|e: ObscuredView| hidden(image, layer, idx, e.path) == Some(e))
}

/// The step of a layer to which a reason belongs: whiteouts, then opaque
/// markers, then directories, then files.
pub open spec fn stage(r: Reason) -> nat {
    match r {
        Reason::Whiteout | Reason::WhiteoutAncestor => 0,
        Reason::OpaqueAncestor => 1,
        Reason::ReplacedByDir => 2,
        Reason::Overwritten | Reason::ReplacedByFile | Reason::ReplacedAncestor => 3,
    }
}

/// The record of the layer that hid the path: what the entry names as
/// responsible, or the path itself.
pub open spec fn cause(e: ObscuredView) -> Path {
    match e.via {
        Some(v) => v,
        None => e.path,
    }
}

/// `a` is logged before `b`: by layer, then by step, then by the record that
/// acted, in path order, then by path.
pub open spec fn logged_before(a: ObscuredView, b: ObscuredView) -> bool {
    if a.by_layer != b.by_layer {
        a.by_layer < b.by_layer
    } else if stage(a.reason) != stage(b.reason) {
        stage(a.reason) < stage(b.reason)
    } else if cause(a) != cause(b) {
        path_lt(cause(a), cause(b))
    } else {
        path_lt(a.path, b.path)
    }
}

/// The entries are in the order in which they are logged.
pub open spec fn chronological(s: Seq<ObscuredView>) -> bool {
    forall|i: int, j: int| 0 <= i < j < s.len() ==> logged_before(s[i], s[j])
}

// ---------------------------------------------------------------------------
// What a layer must not do
// ---------------------------------------------------------------------------

/// The layer makes `p` both a file and a directory.
pub open spec fn clash(layer: LayerView, p: Path) -> bool {
    layer.writes.contains(p) && makes_dir(layer, p)
}

/// The layer marks `o` opaque, and `o` is a file of the lower image, or is not in
/// the lower image and no directory that the layer makes. A file of the lower image is no
/// target even where the layer deletes it or puts a directory in its place.
pub open spec fn bad_opaque(image: Image, layer: LayerView, o: Path) -> bool {
    &&& layer.opaques.contains(o)
    &&& if image.contains_key(o) {
        image[o].kind is File
    } else {
        !makes_dir(layer, o)
    }
}

/// `a` is a file of the lower image that the layer neither deletes nor turns
/// into a directory.
pub open spec fn stays_file(image: Image, layer: LayerView, a: Path) -> bool {
    &&& image.contains_key(a)
    &&& image[a].kind is File
    &&& !layer.mkdirs.contains(a)
    &&& !whited_out(layer, a)
}

/// The layer creates `p` beneath the file `a`.
pub open spec fn blocked_by(image: Image, layer: LayerView, p: Path, a: Path) -> bool {
    &&& layer.writes.contains(p) || layer.mkdirs.contains(p)
    &&& under(p, a)
    &&& stays_file(image, layer, a)
}

/// The layer creates `p` beneath some file.
pub open spec fn blocked(image: Image, layer: LayerView, p: Path) -> bool {
    exists|a: Path| blocked_by(image, layer, p, a)
}

/// No list names a path twice.
pub open spec fn no_repeats(layer: LayerView) -> bool {
    &&& layer.writes.no_duplicates()
    &&& layer.mkdirs.no_duplicates()
    &&& layer.whiteouts.no_duplicates()
    &&& layer.opaques.no_duplicates()
}

/// The layer does not contradict itself.
pub open spec fn coherent(layer: LayerView) -> bool {
    &&& no_repeats(layer)
    &&& forall|p: Path| !clash(layer, p)
    &&& forall|o: Path| #[trigger] layer.opaques.contains(o) ==> !layer.whiteouts.contains(o)
}

/// The layer may be applied to the image.
pub open spec fn acceptable(image: Image, layer: LayerView) -> bool {
    &&& coherent(layer)
    &&& forall|o: Path| !bad_opaque(image, layer, o)
    &&& forall|p: Path| !blocked(image, layer, p)
}

// ---------------------------------------------------------------------------
// How a layer is refused
// ---------------------------------------------------------------------------

/// Position `j` is the first at which `list` repeats a path.
pub open spec fn first_repeat(list: Seq<Path>, j: int) -> bool {
    &&& 0 <= j < list.len()
    &&& list.take(j).contains(list[j])
    &&& list.take(j).no_duplicates()
}

/// The error for a path that a list names twice.
pub open spec fn repeat_error(idx: nat, list: Seq<Path>, name: Seq<char>, e: ErrorView) -> bool {
    exists|j: int| #[trigger]
        first_repeat(list, j) && e == ErrorView::new(
            ErrorCode::LayerConflict,
            "duplicate path '"@ + list[j] + "' in "@ + name,
        ).at(idx, list[j])
}

/// `p` is the first path, in path order, that the layer makes a file and a directory.
pub open spec fn first_clash(layer: LayerView, p: Path) -> bool {
    &&& clash(layer, p)
    &&& forall|q: Path| #[trigger] clash(layer, q) ==> q == p || path_lt(p, q)
}

/// Position `j` is the first at which the opaque markers name a whiteout.
pub open spec fn first_shared(layer: LayerView, j: int) -> bool {
    &&& 0 <= j < layer.opaques.len()
    &&& layer.whiteouts.contains(layer.opaques[j])
    &&& forall|i: int| 0 <= i < j ==> !layer.whiteouts.contains(#[trigger] layer.opaques[i])
}

/// The error `e` refuses a layer that contradicts itself.
pub open spec fn conflict(layer: LayerView, idx: nat, e: ErrorView) -> bool {
    if !layer.writes.no_duplicates() {
        repeat_error(idx, layer.writes, "writes"@, e)
    } else if !layer.mkdirs.no_duplicates() {
        repeat_error(idx, layer.mkdirs, "mkdirs"@, e)
    } else if !layer.whiteouts.no_duplicates() {
        repeat_error(idx, layer.whiteouts, "whiteouts"@, e)
    } else if !layer.opaques.no_duplicates() {
        repeat_error(idx, layer.opaques, "opaques"@, e)
    } else if exists|p: Path| clash(layer, p) {
        exists|p: Path| #[trigger]
            first_clash(layer, p) && e == ErrorView::new(
                ErrorCode::LayerConflict,
                "path '"@ + p + "' is both a file (writes) and a directory"@,
            ).at(idx, p)
    } else {
        exists|j: int| #[trigger]
            first_shared(layer, j) && e == ErrorView::new(
                ErrorCode::LayerConflict,
                "path '"@ + layer.opaques[j] + "' is both a whiteout and an opaque directory"@,
            ).at(idx, layer.opaques[j])
    }
}

/// `o` is the first opaque marker, in path order, without a directory.
pub open spec fn first_bad_opaque(image: Image, layer: LayerView, o: Path) -> bool {
    &&& bad_opaque(image, layer, o)
    &&& forall|q: Path| #[trigger] bad_opaque(image, layer, q) ==> q == o || path_lt(o, q)
}

/// The error `e` refuses a layer for an opaque marker without a directory.
pub open spec fn opaque_refusal(image: Image, layer: LayerView, idx: nat, e: ErrorView) -> bool {
    exists|o: Path| #[trigger]
        first_bad_opaque(image, layer, o) && e == ErrorView::new(
            ErrorCode::InvalidOpaque,
            if image.contains_key(o) {
                "opaque path '"@ + o + "' is a file, not a directory"@
            } else {
                "opaque directory '"@ + o
                    + "' exists neither in lower layers nor in this layer"@
            },
        ).at(idx, o)
}

/// `p` is the first path, in path order, that the layer creates beneath a file,
/// and `a` is the topmost such file.
pub open spec fn first_blocked(image: Image, layer: LayerView, p: Path, a: Path) -> bool {
    &&& blocked_by(image, layer, p, a)
    &&& forall|q: Path| #[trigger] blocked(image, layer, q) ==> q == p || path_lt(p, q)
    &&& forall|b: Path| #[trigger] blocked_by(image, layer, p, b) ==> a.len() <= b.len()
}

/// The error `e` refuses a layer for creating a path beneath a file.
pub open spec fn parent_refusal(image: Image, layer: LayerView, idx: nat, e: ErrorView) -> bool {
    exists|p: Path, a: Path| #[trigger]
        first_blocked(image, layer, p, a) && e == ErrorView::new(
            ErrorCode::FileAsParent,
            "file '"@ + a + "' cannot serve as a parent directory of '"@ + p + "'"@,
        ).at(idx, p)
}

/// The error `e` refuses layer number `idx` on top of the image. Conflicts
/// within the layer come first, then opaque markers, then parents.
pub open spec fn refusal(image: Image, layer: LayerView, idx: nat, e: ErrorView) -> bool {
    if !coherent(layer) {
        conflict(layer, idx, e)
    } else if exists|o: Path| bad_opaque(image, layer, o) {
        opaque_refusal(image, layer, idx, e)
    } else {
        parent_refusal(image, layer, idx, e)
    }
}

// ---------------------------------------------------------------------------
// All layers
// ---------------------------------------------------------------------------

/// The image that the layers add up to, lowest first.
pub open spec fn image_after(layers: Seq<LayerView>) -> Image
    decreases layers.len(),
{
    if layers.len() == 0 {
        Map::empty()
    } else {
        layer_image(image_after(layers.drop_last()), layers.last(), (layers.len() - 1) as nat)
    }
}

/// Everything that the layers hide, each path once for every layer that hides it.
pub open spec fn log_after(layers: Seq<LayerView>) -> Set<ObscuredView>
    decreases layers.len(),
{
    if layers.len() == 0 {
        Set::empty()
    } else {
        log_after(layers.drop_last()).union(
            layer_log(
                image_after(layers.drop_last()),
                layers.last(),
                (layers.len() - 1) as nat,
            ),
        )
    }
}

/// Layer number `k` may be applied to what the layers below it add up to.
pub open spec fn layer_fits(layers: Seq<LayerView>, k: int) -> bool {
    acceptable(image_after(layers.take(k)), layers[k])
}

/// Every layer may be applied to what the layers below it add up to.
pub open spec fn all_fit(layers: Seq<LayerView>) -> bool {
    forall|k: int| 0 <= k < layers.len() ==> #[trigger] layer_fits(layers, k)
}

/// The error `e` refuses the first layer that does not fit.
pub open spec fn merge_refusal(layers: Seq<LayerView>, e: ErrorView) -> bool {
    exists|k: int|
        {
            &&& 0 <= k < layers.len()
            &&& !(#[trigger] layer_fits(layers, k))
            &&& forall|i: int| 0 <= i < k ==> #[trigger] layer_fits(layers, i)
            &&& refusal(image_after(layers.take(k)), layers[k], k as nat, e)
        }
}

} // verus!
