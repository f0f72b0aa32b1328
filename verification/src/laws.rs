//! What holds of merging as a whole.
use vstd::prelude::*;
use crate::apply::{lemma_no_dir_below_file, lemma_same_paths, lemma_topmost, lemma_topmost_exists};
use crate::checks::lemma_push_above;
use crate::merge::{
    describes, event_lt, events_ascending, file_paths, lemma_event_asymmetric, lemma_log_entry,
};
use crate::model::{
    above, acceptable, all_fit, bad_opaque, below, blocked, blocked_by, clash, cleared, coherent,
    conflict, first_bad_opaque, first_blocked, first_clash, first_repeat, hidden, hiding,
    image_after, is_topmost, layer_fits, layer_image, layer_log, lives, log_after, makes_dir,
    merge_refusal, refusal, remains, rooted, topmost, whited_out, Image, Node,
};
use crate::path::{
    lemma_ascending_distinct, lemma_ascending_unique, lemma_lt_asymmetric, lemma_push_contains,
    lemma_under_chain, lemma_under_transitive, path_lt, under, Path,
};
use crate::tree::{child_of, node_shows, tree_paths, tree_shows};
use crate::types::{ErrorView, Kind, LayerView, ObscuredView, OutputView, Reason, TreeView};

verus! {

// ---------------------------------------------------------------------------
// The image
// ---------------------------------------------------------------------------

/// A layer keeps the image rooted: the parent of every live path is a live
/// directory.
pub proof fn law_layer_keeps_rooted(image: Image, layer: LayerView, idx: nat)
    requires
        rooted(image),
        acceptable(image, layer),
    ensures
        rooted(layer_image(image, layer, idx)),
{
    let after = layer_image(image, layer, idx);
    assert forall|p: Path, a: Path|
        after.contains_key(p) && #[trigger] under(p, a) implies after.contains_key(a)
        && after[a].kind is Dir by {
        if layer.writes.contains(p) || makes_dir(layer, p) {
            assert(makes_dir(layer, a)) by {
                if layer.writes.contains(p) {
                    assert(above(layer.writes, a));
                } else if layer.mkdirs.contains(p) {
                    assert(above(layer.mkdirs, a));
                } else if above(layer.mkdirs, p) {
                    let t = choose|t: Path| #[trigger] layer.mkdirs.contains(t) && under(t, p);
                    lemma_under_transitive(t, p, a);
                    assert(above(layer.mkdirs, a));
                } else {
                    let t = choose|t: Path| #[trigger] layer.writes.contains(t) && under(t, p);
                    lemma_under_transitive(t, p, a);
                    assert(above(layer.writes, a));
                }
            }
            assert(!clash(layer, a));
        } else {
            assert(remains(image, layer, p));
            assert(image.contains_key(a) && image[a].kind is Dir);
            assert(remains(image, layer, a)) by {
                if layer.whiteouts.contains(a) {
                    assert(below(layer.whiteouts, p));
                }
                if below(layer.whiteouts, a) {
                    let w = choose|w: Path| #[trigger]
                        layer.whiteouts.contains(w) && under(a, w);
                    lemma_under_transitive(p, a, w);
                    assert(below(layer.whiteouts, p));
                }
                if cleared(layer, a) {
                    let o = choose|o: Path| #[trigger] layer.opaques.contains(o) && under(a, o);
                    lemma_under_transitive(p, a, o);
                    assert(below(layer.opaques, p));
                }
            }
            if layer.writes.contains(a) {
                assert(below(layer.writes, p));
            }
            if below(layer.writes, a) {
                let w = choose|w: Path| #[trigger] layer.writes.contains(w) && under(a, w);
                lemma_under_transitive(p, a, w);
                assert(below(layer.writes, p));
            }
        }
    }
}

/// Layers that fit are layers that fit without the last one.
proof fn lemma_fit_below(layers: Seq<LayerView>)
    requires
        all_fit(layers),
        layers.len() > 0,
    ensures
        all_fit(layers.drop_last()),
        acceptable(image_after(layers.drop_last()), layers.last()),
{
    let rest = layers.drop_last();
    assert forall|k: int| 0 <= k < rest.len() implies #[trigger] layer_fits(rest, k) by {
        assert(rest.take(k) =~= layers.take(k));
        assert(layer_fits(layers, k));
    }
    assert(layers.take(layers.len() - 1) =~= rest);
    assert(layer_fits(layers, layers.len() - 1));
}

/// The parent of every live path of a merged image is a live directory.
pub proof fn law_rooted(layers: Seq<LayerView>)
    requires
        all_fit(layers),
    ensures
        rooted(image_after(layers)),
    decreases layers.len(),
{
    if layers.len() > 0 {
        lemma_fit_below(layers);
        law_rooted(layers.drop_last());
        law_layer_keeps_rooted(
            image_after(layers.drop_last()),
            layers.last(),
            (layers.len() - 1) as nat,
        );
    }
}

/// Every source is one of the layers that were merged.
pub proof fn law_sources(layers: Seq<LayerView>, p: Path)
    requires
        image_after(layers).contains_key(p),
    ensures
        image_after(layers)[p].source < layers.len(),
    decreases layers.len(),
{
    let low = image_after(layers.drop_last());
    if low.contains_key(p) {
        law_sources(layers.drop_last(), p);
    }
}

/// What a source means: the layer put there what stands at the path, and it
/// has stood there unchanged since.
pub proof fn law_source_is_creator(layers: Seq<LayerView>, p: Path, k: int)
    requires
        image_after(layers).contains_key(p),
        image_after(layers)[p].source < k <= layers.len(),
    ensures
        image_after(layers.take(k)).contains_key(p),
        image_after(layers.take(k))[p] == image_after(layers)[p],
    decreases layers.len(),
{
    let n = layers.len() - 1;
    if k == layers.len() {
        assert(layers.take(k) =~= layers);
    } else {
        let low = layers.drop_last();
        law_kept_or_new(image_after(low), layers.last(), n as nat, p);
        law_source_is_creator(low, p, k);
        assert(low.take(k) =~= layers.take(k));
    }
}

/// A path that was missing at some point and is there at the end was recreated:
/// its source is no layer below that point.
pub proof fn law_recreated(layers: Seq<LayerView>, p: Path, k: int)
    requires
        0 <= k <= layers.len(),
        !image_after(layers.take(k)).contains_key(p),
        image_after(layers).contains_key(p),
    ensures
        k <= image_after(layers)[p].source,
{
    if image_after(layers)[p].source < k {
        law_source_is_creator(layers, p, k);
    }
}

/// A layer leaves what stands at a path as it is, or puts something of its own there.
pub proof fn law_kept_or_new(image: Image, layer: LayerView, idx: nat, p: Path)
    requires
        layer_image(image, layer, idx).contains_key(p),
    ensures
        layer_image(image, layer, idx)[p].source == idx || image.contains_key(p) && layer_image(
            image,
            layer,
            idx,
        )[p] == image[p],
{
}

// ---------------------------------------------------------------------------
// The log
// ---------------------------------------------------------------------------

/// Nothing is lost without a trace: what stood at a path either stands there
/// still, or the layer logs it.
pub proof fn law_kept_or_logged(image: Image, layer: LayerView, idx: nat, p: Path)
    requires
        acceptable(image, layer),
        image.contains_key(p),
        image[p].source < idx,
    ensures
        ({
            let after = layer_image(image, layer, idx);
            hidden(image, layer, idx, p) is None <==> after.contains_key(p) && after[p] == image[p]
        }),
{
    if hidden(image, layer, idx, p) is None {
        if makes_dir(layer, p) && image[p].kind is File {
            if above(layer.mkdirs, p) {
                let t = choose|t: Path| #[trigger] layer.mkdirs.contains(t) && under(t, p);
                assert(blocked_by(image, layer, t, p));
                assert(blocked(image, layer, t));
            } else {
                let t = choose|t: Path| #[trigger] layer.writes.contains(t) && under(t, p);
                assert(blocked_by(image, layer, t, p));
                assert(blocked(image, layer, t));
            }
        }
    } else if makes_dir(layer, p) || layer.writes.contains(p) {
        lemma_no_dir_below_file(layer, p);
        assert(!clash(layer, p));
    }
}

/// Every log entry speaks of something that was there: the path stood in the
/// image below the layer that hid it, with the source that the entry gives.
pub proof fn law_logged_was_there(layers: Seq<LayerView>, e: ObscuredView)
    requires
        log_after(layers).contains(e),
    ensures
        e.source_layer < e.by_layer < layers.len(),
        image_after(layers.take(e.by_layer as int)).contains_key(e.path),
        image_after(layers.take(e.by_layer as int))[e.path].source == e.source_layer,
{
    lemma_log_entry(layers, e);
    law_sources(layers.take(e.by_layer as int), e.path);
}

/// A layer logs a path at most once.
pub proof fn law_logged_once(layers: Seq<LayerView>, a: ObscuredView, b: ObscuredView)
    requires
        log_after(layers).contains(a),
        log_after(layers).contains(b),
        a.by_layer == b.by_layer,
        a.path == b.path,
    ensures
        a == b,
{
    lemma_log_entry(layers, a);
    lemma_log_entry(layers, b);
}

/// Later layers do not rewrite the log: what the lower layers logged stays.
pub proof fn law_log_grows(layers: Seq<LayerView>, k: int, e: ObscuredView)
    requires
        0 <= k <= layers.len(),
    ensures
        log_after(layers.take(k)).contains(e) <==> log_after(layers).contains(e) && e.by_layer < k,
{
    lemma_log_entry(layers, e);
    lemma_log_entry(layers.take(k), e);
    if e.by_layer < k {
        assert(layers.take(k).take(e.by_layer as int) =~= layers.take(e.by_layer as int));
    }
}

// ---------------------------------------------------------------------------
// Whiteouts
// ---------------------------------------------------------------------------

/// A whiteout deletes the path that it names, and everything beneath it: what
/// is there afterwards comes from the layer itself, and what was there is
/// logged with its old source.
pub proof fn law_whiteout(image: Image, layer: LayerView, idx: nat, w: Path, p: Path)
    requires
        layer.whiteouts.contains(w),
        p == w || under(p, w),
    ensures
        ({
            let after = layer_image(image, layer, idx);
            &&& after.contains_key(p) ==> after[p].source == idx
            &&& image.contains_key(p) ==> hidden(image, layer, idx, p) is Some && hidden(
                image,
                layer,
                idx,
                p,
            )->0.source_layer == image[p].source
        }),
{
    assert(whited_out(layer, p));
}

/// A path may be deleted and rebuilt by one layer: it is then a file of that
/// layer, and what was there is logged as deleted.
pub proof fn law_whiteout_and_write(image: Image, layer: LayerView, idx: nat, p: Path)
    requires
        layer.whiteouts.contains(p),
        layer.writes.contains(p),
    ensures
        layer_image(image, layer, idx).contains_key(p),
        layer_image(image, layer, idx)[p] == (Node { kind: Kind::File, source: idx }),
        image.contains_key(p) ==> hiding(image, layer, p) == if below(layer.whiteouts, p) {
            Some((Reason::WhiteoutAncestor, Some(topmost(layer.whiteouts, p))))
        } else {
            Some((Reason::Whiteout, None))
        },
{
}

/// The layer with one more whiteout.
pub open spec fn with_whiteout(layer: LayerView, w: Path) -> LayerView {
    LayerView { whiteouts: layer.whiteouts.push(w), ..layer }
}

/// A whiteout that names nothing of the lower image changes nothing.
pub proof fn law_dangling_whiteout(image: Image, layer: LayerView, idx: nat, w: Path)
    requires
        rooted(image),
        !image.contains_key(w),
        !layer.whiteouts.contains(w),
        !layer.opaques.contains(w),
    ensures
        acceptable(image, with_whiteout(layer, w)) <==> acceptable(image, layer),
        layer_image(image, with_whiteout(layer, w), idx) == layer_image(image, layer, idx),
        layer_log(image, with_whiteout(layer, w), idx) == layer_log(image, layer, idx),
{
    let more = with_whiteout(layer, w);
    assert forall|p: Path| #[trigger] image.contains_key(p) implies !under(p, w) && p != w by {}
    assert forall|p: Path| #[trigger]
        more.whiteouts.contains(p) <==> layer.whiteouts.contains(p) || p == w by {
        lemma_push_contains(layer.whiteouts, w, p);
    }
    assert forall|p: Path| #[trigger] image.contains_key(p) implies below(more.whiteouts, p)
        == below(layer.whiteouts, p) by {
        if below(layer.whiteouts, p) {
            let a = choose|a: Path| #[trigger] layer.whiteouts.contains(a) && under(p, a);
            assert(more.whiteouts.contains(a));
        }
        if below(more.whiteouts, p) {
            let a = choose|a: Path| #[trigger] more.whiteouts.contains(a) && under(p, a);
            assert(layer.whiteouts.contains(a));
        }
    }
    assert forall|p: Path| #[trigger] makes_dir(more, p) == makes_dir(layer, p) by {}
    assert forall|p: Path| #[trigger] remains(image, more, p) == remains(image, layer, p) by {}
    assert(layer_image(image, more, idx) =~= layer_image(image, layer, idx));
    assert forall|p: Path| image.contains_key(p) implies #[trigger] hidden(image, more, idx, p)
        == hidden(image, layer, idx, p) by {
        if below(layer.whiteouts, p) {
            lemma_topmost_exists(layer.whiteouts, p);
            let t = topmost(layer.whiteouts, p);
            assert forall|b: Path| #[trigger]
                more.whiteouts.contains(b) && under(p, b) implies t.len() <= b.len() by {
                assert(layer.whiteouts.contains(b));
            }
            assert(more.whiteouts.contains(t));
            lemma_topmost(more.whiteouts, p, t);
        }
    }
    assert(layer_log(image, more, idx) =~= layer_log(image, layer, idx));
    assert forall|p: Path, a: Path| #[trigger]
        blocked_by(image, more, p, a) == blocked_by(image, layer, p, a) by {}
    assert forall|p: Path| #[trigger] blocked(image, more, p) == blocked(image, layer, p) by {
        if blocked(image, layer, p) {
            let a = choose|a: Path| blocked_by(image, layer, p, a);
            assert(blocked_by(image, more, p, a));
        }
        if blocked(image, more, p) {
            let a = choose|a: Path| blocked_by(image, more, p, a);
            assert(blocked_by(image, layer, p, a));
        }
    }
    assert forall|p: Path| #[trigger] clash(more, p) == clash(layer, p) by {}
    assert forall|p: Path| #[trigger] bad_opaque(image, more, p) == bad_opaque(
        image,
        layer,
        p,
    ) by {}
    assert(more.whiteouts.no_duplicates() <==> layer.whiteouts.no_duplicates()) by {
        if more.whiteouts.no_duplicates() {
            assert forall|i: int, j: int|
                0 <= i < layer.whiteouts.len() && 0 <= j < layer.whiteouts.len() && i
                    != j implies layer.whiteouts[i] != layer.whiteouts[j] by {
                assert(more.whiteouts[i] != more.whiteouts[j]);
            }
        }
    }
    assert(coherent(more) <==> coherent(layer)) by {
        if coherent(more) {
            assert forall|o: Path| #[trigger] layer.opaques.contains(o) implies !layer.whiteouts.contains(
                o,
            ) by {
                assert(!more.whiteouts.contains(o));
            }
            assert forall|p: Path| !clash(layer, p) by {
                assert(!clash(more, p));
            }
        }
        if coherent(layer) {
            assert forall|o: Path| #[trigger] more.opaques.contains(o) implies !more.whiteouts.contains(
                o,
            ) by {
                assert(!layer.whiteouts.contains(o));
            }
            assert forall|p: Path| !clash(more, p) by {
                assert(!clash(layer, p));
            }
        }
    }
    if acceptable(image, more) {
        assert forall|o: Path| !bad_opaque(image, layer, o) by {
            assert(!bad_opaque(image, more, o));
        }
        assert forall|p: Path| !blocked(image, layer, p) by {
            assert(!blocked(image, more, p));
        }
    }
    if acceptable(image, layer) {
        assert forall|o: Path| !bad_opaque(image, more, o) by {
            assert(!bad_opaque(image, layer, o));
        }
        assert forall|p: Path| !blocked(image, more, p) by {
            assert(!blocked(image, layer, p));
        }
    }
}

// ---------------------------------------------------------------------------
// Opaque markers
// ---------------------------------------------------------------------------

/// An opaque marker keeps the directory itself, where nothing else of the
/// layer touches it.
pub proof fn law_opaque_keeps_directory(image: Image, layer: LayerView, idx: nat, o: Path)
    requires
        acceptable(image, layer),
        layer.opaques.contains(o),
        remains(image, layer, o),
        !layer.writes.contains(o),
        !below(layer.writes, o),
    ensures
        layer_image(image, layer, idx).contains_key(o),
        layer_image(image, layer, idx)[o] == image[o],
        image[o].kind is Dir,
        hidden(image, layer, idx, o) is None,
{
    assert(!bad_opaque(image, layer, o));
}

/// An opaque marker hides everything that the lower image has beneath the
/// directory: what is there afterwards comes from the layer itself, and what
/// was there is logged.
pub proof fn law_opaque_hides_children(
    image: Image,
    layer: LayerView,
    idx: nat,
    o: Path,
    p: Path,
)
    requires
        layer.opaques.contains(o),
        under(p, o),
    ensures
        ({
            let after = layer_image(image, layer, idx);
            &&& after.contains_key(p) ==> after[p].source == idx
            &&& image.contains_key(p) ==> hidden(image, layer, idx, p) is Some && hidden(
                image,
                layer,
                idx,
                p,
            )->0.source_layer == image[p].source
        }),
{
    assert(cleared(layer, p));
}

/// An opaque marker is refused unless it names a directory of the lower image
/// or one that the layer creates.
pub proof fn law_opaque_needs_directory(image: Image, layer: LayerView, o: Path)
    requires
        acceptable(image, layer),
        layer.opaques.contains(o),
    ensures
        image.contains_key(o) && image[o].kind is Dir || !image.contains_key(o) && makes_dir(
            layer,
            o,
        ),
{
    assert(!bad_opaque(image, layer, o));
}

// ---------------------------------------------------------------------------
// Files and directories
// ---------------------------------------------------------------------------

/// A written path is a file of the layer; the file that it overwrites, or the
/// directory that it replaces, is logged.
pub proof fn law_write(image: Image, layer: LayerView, idx: nat, p: Path)
    requires
        layer.writes.contains(p),
    ensures
        layer_image(image, layer, idx).contains_key(p),
        layer_image(image, layer, idx)[p] == (Node { kind: Kind::File, source: idx }),
        remains(image, layer, p) ==> hiding(image, layer, p) == Some(
            (
                if image[p].kind is File {
                    Reason::Overwritten
                } else {
                    Reason::ReplacedByFile
                },
                None::<Path>,
            ),
        ),
{
}

/// What lies beneath a written path is gone, and logged through that path.
pub proof fn law_write_replaces_subtree(
    image: Image,
    layer: LayerView,
    idx: nat,
    w: Path,
    p: Path,
)
    requires
        acceptable(image, layer),
        layer.writes.contains(w),
        under(p, w),
    ensures
        !layer_image(image, layer, idx).contains_key(p),
        remains(image, layer, p) ==> hiding(image, layer, p) == Some(
            (Reason::ReplacedAncestor, Some(w)),
        ),
{
    assert(below(layer.writes, p));
    if makes_dir(layer, p) || layer.writes.contains(p) {
        lemma_no_dir_below_file(layer, p);
    }
    assert forall|b: Path| #[trigger] layer.writes.contains(b) && under(p, b) implies w.len()
        <= b.len() by {
        if b.len() < w.len() {
            lemma_under_chain(p, b, w);
            assert(above(layer.writes, b));
            assert(clash(layer, b));
        }
    }
    lemma_topmost(layer.writes, p, w);
}

/// An explicit directory on top of a file takes its place, and the file is logged.
pub proof fn law_mkdir_over_file(image: Image, layer: LayerView, idx: nat, p: Path)
    requires
        acceptable(image, layer),
        layer.mkdirs.contains(p),
        remains(image, layer, p),
        image[p].kind is File,
    ensures
        layer_image(image, layer, idx).contains_key(p),
        layer_image(image, layer, idx)[p] == (Node { kind: Kind::Dir, source: idx }),
        hiding(image, layer, p) == Some((Reason::ReplacedByDir, None::<Path>)),
{
    assert(!clash(layer, p));
    lemma_no_dir_below_file(layer, p);
}

/// A directory on top of a directory is merged with it: the source stays, and
/// nothing is logged.
pub proof fn law_mkdir_over_directory(image: Image, layer: LayerView, idx: nat, p: Path)
    requires
        acceptable(image, layer),
        makes_dir(layer, p),
        remains(image, layer, p),
        image[p].kind is Dir,
    ensures
        layer_image(image, layer, idx).contains_key(p),
        layer_image(image, layer, idx)[p] == image[p],
        hidden(image, layer, idx, p) is None,
{
    assert(!clash(layer, p));
    lemma_no_dir_below_file(layer, p);
}

/// Creating a path creates its ancestors: each is a directory, of this layer
/// where none was there.
pub proof fn law_parents_created(image: Image, layer: LayerView, idx: nat, p: Path, a: Path)
    requires
        acceptable(image, layer),
        layer.writes.contains(p) || layer.mkdirs.contains(p),
        under(p, a),
    ensures
        layer_image(image, layer, idx).contains_key(a),
        layer_image(image, layer, idx)[a].kind is Dir,
        !remains(image, layer, a) ==> layer_image(image, layer, idx)[a].source == idx,
{
    assert(above(layer.writes, a) || above(layer.mkdirs, a));
    assert(makes_dir(layer, a));
    assert(!clash(layer, a));
}

/// A coherent layer does not make a file the parent of anything else that it
/// creates.
pub proof fn law_no_parent_in_layer(layer: LayerView, w: Path, p: Path)
    requires
        coherent(layer),
        layer.writes.contains(w),
        layer.writes.contains(p) || layer.mkdirs.contains(p),
    ensures
        !under(p, w),
        layer.mkdirs.contains(p) ==> p != w,
{
    assert(!clash(layer, w));
    if under(p, w) {
        assert(above(layer.writes, w) || above(layer.mkdirs, w));
    }
}

/// A layer is refused exactly for creating a path beneath a file that it
/// neither deletes nor turns into a directory, once it is coherent and its
/// opaque markers name directories.
pub proof fn law_file_is_no_parent(image: Image, layer: LayerView)
    requires
        coherent(layer),
        forall|o: Path| !bad_opaque(image, layer, o),
    ensures
        acceptable(image, layer) <==> forall|p: Path, a: Path|
            (layer.writes.contains(p) || layer.mkdirs.contains(p)) && #[trigger] under(p, a)
                && image.contains_key(a) && image[a].kind is File ==> layer.mkdirs.contains(a)
                || whited_out(layer, a),
{
    if acceptable(image, layer) {
        assert forall|p: Path, a: Path|
            (layer.writes.contains(p) || layer.mkdirs.contains(p)) && #[trigger] under(p, a)
                && image.contains_key(a) && image[a].kind is File implies layer.mkdirs.contains(a)
            || whited_out(layer, a) by {
            assert(!blocked(image, layer, p));
            assert(!blocked_by(image, layer, p, a));
        }
    }
}

/// A layer without records changes nothing and is always accepted.
pub proof fn law_empty_layer(image: Image, layer: LayerView, idx: nat)
    requires
        layer.records() == 0,
    ensures
        acceptable(image, layer),
        layer_image(image, layer, idx) == image,
        layer_log(image, layer, idx) == Set::<ObscuredView>::empty(),
{
    assert(layer_image(image, layer, idx) =~= image);
    assert(layer_log(image, layer, idx) =~= Set::<ObscuredView>::empty());
}

// ---------------------------------------------------------------------------
// Order within a layer
// ---------------------------------------------------------------------------

/// The lists hold the same paths.
pub open spec fn same_paths(s: Seq<Path>, t: Seq<Path>) -> bool {
    forall|p: Path| #[trigger] s.contains(p) <==> t.contains(p)
}

/// The layers hold the same records, in whatever order.
pub open spec fn same_records(a: LayerView, b: LayerView) -> bool {
    &&& a.writes.to_multiset() == b.writes.to_multiset()
    &&& a.mkdirs.to_multiset() == b.mkdirs.to_multiset()
    &&& a.whiteouts.to_multiset() == b.whiteouts.to_multiset()
    &&& a.opaques.to_multiset() == b.opaques.to_multiset()
}

/// Lists with the same paths as often are alike in what matters.
proof fn lemma_same_list(s: Seq<Path>, t: Seq<Path>)
    requires
        s.to_multiset() == t.to_multiset(),
    ensures
        same_paths(s, t),
        s.no_duplicates() <==> t.no_duplicates(),
        forall|p: Path| #[trigger] below(s, p) == below(t, p),
        forall|p: Path| #[trigger] above(s, p) == above(t, p),
        forall|p: Path, a: Path| #[trigger] is_topmost(s, p, a) <==> is_topmost(t, p, a),
        forall|p: Path| below(s, p) ==> #[trigger] topmost(s, p) == topmost(t, p),
{
    s.to_multiset_ensures();
    t.to_multiset_ensures();
    assert forall|p: Path| #[trigger] s.contains(p) <==> t.contains(p) by {
        assert(s.contains(p) <==> s.to_multiset().count(p) > 0);
        assert(t.contains(p) <==> t.to_multiset().count(p) > 0);
    }
    if s.no_duplicates() {
        s.lemma_multiset_has_no_duplicates();
        t.lemma_multiset_has_no_duplicates_conv();
    }
    if t.no_duplicates() {
        t.lemma_multiset_has_no_duplicates();
        s.lemma_multiset_has_no_duplicates_conv();
    }
    assert forall|p: Path|
        #![trigger below(s, p)]
        #![trigger above(s, p)]
        below(s, p) == below(t, p) && above(s, p) == above(t, p) by {
        lemma_same_paths(s, t, p);
    }
    assert forall|p: Path, a: Path| #[trigger]
        is_topmost(s, p, a) <==> is_topmost(t, p, a) by {
        if is_topmost(s, p, a) {
            assert forall|b: Path| #[trigger] t.contains(b) && under(p, b) implies a.len()
                <= b.len() by {
                assert(s.contains(b));
            }
        }
        if is_topmost(t, p, a) {
            assert forall|b: Path| #[trigger] s.contains(b) && under(p, b) implies a.len()
                <= b.len() by {
                assert(t.contains(b));
            }
        }
    }
    assert forall|p: Path| below(s, p) implies #[trigger] topmost(s, p) == topmost(t, p) by {
        lemma_topmost_exists(s, p);
        assert(is_topmost(t, p, topmost(s, p)));
        lemma_topmost(t, p, topmost(s, p));
    }
}

/// The order in which a layer lists its records does not matter: the image
/// and the log are the same, and the layer fits or not.
pub proof fn law_order_within_layer(image: Image, a: LayerView, b: LayerView, idx: nat)
    requires
        same_records(a, b),
    ensures
        acceptable(image, a) <==> acceptable(image, b),
        layer_image(image, a, idx) == layer_image(image, b, idx),
        layer_log(image, a, idx) == layer_log(image, b, idx),
{
    lemma_same_list(a.writes, b.writes);
    lemma_same_list(a.mkdirs, b.mkdirs);
    lemma_same_list(a.whiteouts, b.whiteouts);
    lemma_same_list(a.opaques, b.opaques);
    assert forall|p: Path| #[trigger] makes_dir(a, p) == makes_dir(b, p) by {}
    assert forall|p: Path| #[trigger] remains(image, a, p) == remains(image, b, p) by {}
    assert(layer_image(image, a, idx) =~= layer_image(image, b, idx)) by {
        assert forall|p: Path| #[trigger] lives(image, a, p) == lives(image, b, p) by {}
    }
    assert forall|p: Path| image.contains_key(p) implies #[trigger] hidden(image, a, idx, p)
        == hidden(image, b, idx, p) by {
        assert(below(a.whiteouts, p) ==> topmost(a.whiteouts, p) == topmost(b.whiteouts, p));
        assert(below(a.opaques, p) ==> topmost(a.opaques, p) == topmost(b.opaques, p));
        assert(below(a.writes, p) ==> topmost(a.writes, p) == topmost(b.writes, p));
    }
    assert(layer_log(image, a, idx) =~= layer_log(image, b, idx));
    lemma_same_acceptance(image, a, b);
    lemma_same_acceptance(image, b, a);
}

/// One direction of the acceptance of layers with the same records.
proof fn lemma_same_acceptance(image: Image, a: LayerView, b: LayerView)
    requires
        same_records(a, b),
    ensures
        acceptable(image, a) ==> acceptable(image, b),
{
    lemma_same_list(a.writes, b.writes);
    lemma_same_list(a.mkdirs, b.mkdirs);
    lemma_same_list(a.whiteouts, b.whiteouts);
    lemma_same_list(a.opaques, b.opaques);
    assert forall|p: Path| #[trigger] makes_dir(a, p) == makes_dir(b, p) by {}
    if acceptable(image, a) {
        assert forall|p: Path| !clash(b, p) by {
            assert(!clash(a, p));
        }
        assert forall|o: Path| #[trigger] b.opaques.contains(o) implies !b.whiteouts.contains(
            o,
        ) by {
            assert(a.opaques.contains(o));
            assert(!a.whiteouts.contains(o));
        }
        assert forall|o: Path| !bad_opaque(image, b, o) by {
            assert(!bad_opaque(image, a, o));
        }
        assert forall|p: Path| !blocked(image, b, p) by {
            if blocked(image, b, p) {
                let x = choose|x: Path| blocked_by(image, b, p, x);
                assert(blocked_by(image, a, p, x));
                assert(blocked(image, a, p));
            }
        }
    }
}

/// The order of records within the layers does not matter to a merge.
pub proof fn law_order_within_layers(a: Seq<LayerView>, b: Seq<LayerView>)
    requires
        a.len() == b.len(),
        forall|k: int| 0 <= k < a.len() ==> same_records(#[trigger] a[k], b[k]),
    ensures
        all_fit(a) <==> all_fit(b),
        image_after(a) == image_after(b),
        log_after(a) == log_after(b),
    decreases a.len(),
{
    if a.len() > 0 {
        let x = a.drop_last();
        let y = b.drop_last();
        let n = a.len() - 1;
        law_order_within_layers(x, y);
        assert(same_records(a[n], b[n]));
        law_order_within_layer(image_after(x), a[n], b[n], n as nat);
        lemma_fit_last(a);
        lemma_fit_last(b);
    }
}

/// Layers fit where the last one fits on top of the others, and these fit.
proof fn lemma_fit_last(layers: Seq<LayerView>)
    requires
        layers.len() > 0,
    ensures
        all_fit(layers) <==> all_fit(layers.drop_last()) && acceptable(
            image_after(layers.drop_last()),
            layers.last(),
        ),
{
    let rest = layers.drop_last();
    let n = layers.len() - 1;
    if all_fit(layers) {
        lemma_fit_below(layers);
    }
    if all_fit(rest) && acceptable(image_after(rest), layers.last()) {
        assert forall|k: int| 0 <= k < layers.len() implies #[trigger] layer_fits(layers, k) by {
            if k < n {
                assert(rest.take(k) =~= layers.take(k));
                assert(layer_fits(rest, k));
            } else {
                assert(layers.take(k) =~= rest);
            }
        }
    }
}

// ---------------------------------------------------------------------------
// Refusals
// ---------------------------------------------------------------------------

/// A layer is refused with one error only.
pub proof fn law_one_refusal(
    image: Image,
    layer: LayerView,
    idx: nat,
    e: ErrorView,
    f: ErrorView,
)
    requires
        refusal(image, layer, idx, e),
        refusal(image, layer, idx, f),
    ensures
        e == f,
{
    assert forall|list: Seq<Path>, i: int, j: int| #[trigger]
        first_repeat(list, i) && #[trigger] first_repeat(list, j) implies i == j by {
        if i < j {
            lemma_first_repeat(list, i, j);
        } else if j < i {
            lemma_first_repeat(list, j, i);
        }
    }
    assert forall|p: Path, q: Path| #[trigger]
        first_clash(layer, p) && #[trigger] first_clash(layer, q) implies p == q by {
        if p != q {
            assert(path_lt(p, q) && path_lt(q, p));
            lemma_lt_asymmetric(p, q);
        }
    }
    assert forall|p: Path, q: Path| #[trigger]
        first_bad_opaque(image, layer, p) && #[trigger] first_bad_opaque(
            image,
            layer,
            q,
        ) implies p == q by {
        if p != q {
            assert(path_lt(p, q) && path_lt(q, p));
            lemma_lt_asymmetric(p, q);
        }
    }
    assert forall|p: Path, a: Path, q: Path, b: Path| #[trigger]
        first_blocked(image, layer, p, a) && #[trigger] first_blocked(
            image,
            layer,
            q,
            b,
        ) implies p == q && a == b by {
        assert(blocked(image, layer, p));
        assert(blocked(image, layer, q));
        if p != q {
            lemma_lt_asymmetric(p, q);
        }
        assert(blocked_by(image, layer, p, b));
        assert(blocked_by(image, layer, q, a));
        lemma_under_chain(p, a, b);
    }
}

/// A list that repeats a path at `i` has no first repetition behind `i`.
proof fn lemma_first_repeat(list: Seq<Path>, i: int, j: int)
    requires
        first_repeat(list, i),
        i < j <= list.len(),
    ensures
        !list.take(j).no_duplicates(),
{
    let k = choose|k: int| 0 <= k < list.take(i).len() && list.take(i)[k] == list[i];
    assert(list.take(j)[k] == list.take(j)[i]);
}

/// A refusal names the layer and a path, and is a conflict within the layer,
/// a bad opaque marker or a file that would have to be a directory.
pub proof fn law_refusal_codes(image: Image, layer: LayerView, idx: nat, e: ErrorView)
    requires
        refusal(image, layer, idx, e),
    ensures
        e.code is LayerConflict || e.code is InvalidOpaque || e.code is FileAsParent,
        e.code is LayerConflict <==> !coherent(layer),
        e.code is InvalidOpaque <==> coherent(layer) && exists|o: Path|
            bad_opaque(image, layer, o),
        e.layer == Some(idx),
        e.path is Some,
        e.exit_code() == 1,
{
}

/// A merge is refused with one error only. It names one of the layers, and is
/// never an internal error.
pub proof fn law_one_merge_refusal(layers: Seq<LayerView>, e: ErrorView, f: ErrorView)
    requires
        merge_refusal(layers, e),
        merge_refusal(layers, f),
    ensures
        e == f,
        e.code is LayerConflict || e.code is InvalidOpaque || e.code is FileAsParent,
        e.layer is Some,
        e.layer->0 < layers.len(),
        !all_fit(layers),
{
    let i = choose|k: int|
        {
            &&& 0 <= k < layers.len()
            &&& !(#[trigger] layer_fits(layers, k))
            &&& forall|i: int| 0 <= i < k ==> #[trigger] layer_fits(layers, i)
            &&& refusal(image_after(layers.take(k)), layers[k], k as nat, e)
        };
    let j = choose|k: int|
        {
            &&& 0 <= k < layers.len()
            &&& !(#[trigger] layer_fits(layers, k))
            &&& forall|i: int| 0 <= i < k ==> #[trigger] layer_fits(layers, i)
            &&& refusal(image_after(layers.take(k)), layers[k], k as nat, f)
        };
    assert(i == j);
    law_one_refusal(image_after(layers.take(i)), layers[i], i as nat, e, f);
    law_refusal_codes(image_after(layers.take(i)), layers[i], i as nat, e);
}

/// What is refused stays refused, with the same error, whatever layers come on top.
pub proof fn law_refusal_is_final(layers: Seq<LayerView>, k: int, e: ErrorView)
    requires
        0 <= k <= layers.len(),
        merge_refusal(layers.take(k), e),
    ensures
        merge_refusal(layers, e),
{
    let low = layers.take(k);
    let j = choose|j: int|
        {
            &&& 0 <= j < low.len()
            &&& !(#[trigger] layer_fits(low, j))
            &&& forall|i: int| 0 <= i < j ==> #[trigger] layer_fits(low, i)
            &&& refusal(image_after(low.take(j)), low[j], j as nat, e)
        };
    assert forall|i: int| 0 <= i <= j implies #[trigger] layer_fits(layers, i) == layer_fits(
        low,
        i,
    ) by {
        assert(low.take(i) =~= layers.take(i));
    }
    assert(low.take(j) =~= layers.take(j));
    assert(!layer_fits(layers, j));
}

// ---------------------------------------------------------------------------
// The report
// ---------------------------------------------------------------------------

/// Ascending log entries are determined by what they are.
proof fn lemma_events_unique(s: Seq<ObscuredView>, t: Seq<ObscuredView>)
    requires
        events_ascending(s),
        events_ascending(t),
        forall|e: ObscuredView|
            #![trigger s.contains(e)]
            #![trigger t.contains(e)]
            s.contains(e) <==> t.contains(e),
    ensures
        s == t,
    decreases s.len(),
{
    if s.len() == 0 {
        if t.len() > 0 {
            assert(t.contains(t[0]));
        }
        assert(s =~= t);
    } else {
        assert(s.contains(s[0]));
        assert(t.contains(s[0]));
        let m = choose|i: int| 0 <= i < t.len() && t[i] == s[0];
        assert(t.contains(t[0]));
        assert(s.contains(t[0]));
        let n = choose|j: int| 0 <= j < s.len() && s[j] == t[0];
        if s[0] != t[0] {
            assert(event_lt(t[0], t[m]));
            assert(event_lt(s[0], s[n]));
            lemma_event_asymmetric(s[0], t[0]);
        }
        let s1 = s.drop_first();
        let t1 = t.drop_first();
        assert forall|e: ObscuredView|
            #![trigger s1.contains(e)]
            #![trigger t1.contains(e)]
            s1.contains(e) <==> t1.contains(e) by {
            if s1.contains(e) {
                let i = choose|i: int| 0 <= i < s1.len() && s1[i] == e;
                assert(s[i + 1] == e);
                assert(s.contains(e));
                assert(event_lt(s[0], s[i + 1]));
                let j = choose|j: int| 0 <= j < t.len() && t[j] == e;
                if j == 0 {
                    lemma_event_asymmetric(s[0], s[i + 1]);
                }
                assert(t1[j - 1] == e);
            }
            if t1.contains(e) {
                let i = choose|i: int| 0 <= i < t1.len() && t1[i] == e;
                assert(t[i + 1] == e);
                assert(t.contains(e));
                assert(event_lt(t[0], t[i + 1]));
                let j = choose|j: int| 0 <= j < s.len() && s[j] == e;
                if j == 0 {
                    lemma_event_asymmetric(t[0], t[i + 1]);
                }
                assert(s1[j - 1] == e);
            }
        }
        assert forall|i: int, j: int| 0 <= i < j < s1.len() implies event_lt(s1[i], s1[j]) by {
            assert(event_lt(s[i + 1], s[j + 1]));
        }
        assert forall|i: int, j: int| 0 <= i < j < t1.len() implies event_lt(t1[i], t1[j]) by {
            assert(event_lt(t[i + 1], t[j + 1]));
        }
        lemma_events_unique(s1, t1);
        assert(s =~= seq![s[0]] + s1);
        assert(t =~= seq![t[0]] + t1);
    }
}

/// The trees of the same paths of one image are the same.
proof fn lemma_children_unique(
    s: Seq<TreeView>,
    t: Seq<TreeView>,
    dir: Option<Path>,
    image: Image,
)
    requires
        crate::tree::children_show(s, dir, image),
        crate::tree::children_show(t, dir, image),
    ensures
        s == t,
    decreases s,
{
    lemma_ascending_unique(tree_paths(s), tree_paths(t));
    assert(tree_paths(s).len() == s.len());
    assert(tree_paths(t).len() == t.len());
    assert forall|i: int| 0 <= i < s.len() implies s[i] == t[i] by {
        assert(tree_paths(s)[i] == s[i].path);
        assert(tree_paths(t)[i] == t[i].path);
        assert(node_shows(s[i], image));
        assert(node_shows(t[i], image));
        lemma_children_unique(s[i].children, t[i].children, Some(s[i].path), image);
    }
    assert(s =~= t);
}

/// There is one way only to describe an image and a log: tree, files, log and
/// totals are determined.
pub proof fn law_one_description(
    x: OutputView,
    y: OutputView,
    image: Image,
    log: Set<ObscuredView>,
    layers: nat,
)
    requires
        describes(x, image, log, layers),
        describes(y, image, log, layers),
    ensures
        x == y,
{
    lemma_children_unique(x.tree.children, y.tree.children, None, image);
    lemma_ascending_unique(file_paths(x.files), file_paths(y.files));
    assert(file_paths(x.files).len() == x.files.len());
    assert(file_paths(y.files).len() == y.files.len());
    assert forall|i: int| 0 <= i < x.files.len() implies x.files[i] == y.files[i] by {
        assert(file_paths(x.files)[i] == x.files[i].path);
        assert(file_paths(y.files)[i] == y.files[i].path);
    }
    assert(x.files =~= y.files);
    assert forall|e: ObscuredView|
        #![trigger x.obscured.contains(e)]
        #![trigger y.obscured.contains(e)]
        x.obscured.contains(e) <==> y.obscured.contains(e) by {
        assert(x.obscured.contains(e) <==> log.contains(e));
        assert(y.obscured.contains(e) <==> log.contains(e));
    }
    lemma_events_unique(x.obscured, y.obscured);
}

/// Layers that list the same records, in whatever order, are reported alike.
pub proof fn law_order_same_report(
    a: Seq<LayerView>,
    b: Seq<LayerView>,
    x: OutputView,
    y: OutputView,
)
    requires
        a.len() == b.len(),
        forall|k: int| 0 <= k < a.len() ==> same_records(#[trigger] a[k], b[k]),
        describes(x, image_after(a), log_after(a), a.len()),
        describes(y, image_after(b), log_after(b), b.len()),
    ensures
        x == y,
{
    law_order_within_layers(a, b);
    law_one_description(x, y, image_after(a), log_after(a), a.len());
}

/// `n` is a node somewhere beneath the root of `t`.
pub open spec fn within(t: TreeView, n: TreeView) -> bool
    decreases t,
{
    exists|i: int|
        0 <= i < t.children.len() && (#[trigger] t.children[i] == n || within(t.children[i], n))
}

/// What is directly in a node of a tree is a node of the tree.
proof fn lemma_within_step(t: TreeView, m: TreeView, i: int)
    requires
        within(t, m),
        0 <= i < m.children.len(),
    ensures
        within(t, m.children[i]),
    decreases t,
{
    let k = choose|k: int|
        0 <= k < t.children.len() && (#[trigger] t.children[k] == m || within(t.children[k], m));
    if t.children[k] == m {
        let c = t.children[k];
        assert(c.children[i] == m.children[i]);
        assert(within(c, m.children[i]));
    } else {
        lemma_within_step(t.children[k], m, i);
    }
}

/// Every path has a parent, or stands directly in the root.
proof fn lemma_parent_exists(p: Path) -> (dir: Option<Path>)
    ensures
        child_of(p, dir),
{
    let dir = lemma_parent_before(p, p.len() as int);
    dir
}

/// The longest ancestor with fewer than `n` characters.
proof fn lemma_parent_before(p: Path, n: int) -> (dir: Option<Path>)
    requires
        0 <= n <= p.len(),
    ensures
        match dir {
            None => forall|a: Path| a.len() < n ==> !under(p, a),
            Some(d) => under(p, d) && d.len() < n && forall|a: Path| #[trigger]
                under(p, a) && a.len() < n ==> a.len() <= d.len(),
        },
    decreases n,
{
    if n == 0 {
        None
    } else if p[n - 1] == '/' {
        let d = p.take(n - 1);
        assert(under(p, d));
        Some(d)
    } else {
        let dir = lemma_parent_before(p, n - 1);
        assert forall|a: Path| a.len() == n - 1 implies !under(p, a) by {}
        dir
    }
}

/// Every live path has its node in the tree.
proof fn lemma_node_of(t: TreeView, image: Image, p: Path) -> (n: TreeView)
    requires
        rooted(image),
        tree_shows(t, image),
        image.contains_key(p),
    ensures
        within(t, n),
        n.path == p,
        node_shows(n, image),
    decreases p.len(),
{
    let dir = lemma_parent_exists(p);
    match dir {
        None => {
            assert(tree_paths(t.children).contains(p));
            let i = choose|i: int|
                0 <= i < tree_paths(t.children).len() && tree_paths(t.children)[i] == p;
            assert(t.children[i].path == p);
            t.children[i]
        },
        Some(d) => {
            assert(under(p, d));
            let m = lemma_node_of(t, image, d);
            assert(tree_paths(m.children).contains(p));
            let i = choose|i: int|
                0 <= i < tree_paths(m.children).len() && tree_paths(m.children)[i] == p;
            assert(m.children[i].path == p);
            lemma_within_step(t, m, i);
            m.children[i]
        },
    }
}

/// The nodes of a tree that shows an image show it too.
proof fn lemma_within_shows(t: TreeView, image: Image, n: TreeView)
    requires
        within(t, n),
        forall|i: int|
            0 <= i < t.children.len() ==> node_shows(#[trigger] t.children[i], image)
                && image.contains_key(t.children[i].path),
    ensures
        node_shows(n, image),
        image.contains_key(n.path),
    decreases t,
{
    let k = choose|k: int|
        0 <= k < t.children.len() && (#[trigger] t.children[k] == n || within(t.children[k], n));
    let c = t.children[k];
    if c != n {
        assert forall|i: int| 0 <= i < c.children.len() implies node_shows(
            #[trigger] c.children[i],
            image,
        ) && image.contains_key(c.children[i].path) by {
            assert(tree_paths(c.children)[i] == c.children[i].path);
            assert(tree_paths(c.children).contains(c.children[i].path));
        }
        lemma_within_shows(c, image, n);
    }
}

/// The tree has a node for every live path, and only for those; it gives the
/// kind and the source of what stands there.
pub proof fn law_tree_is_image(t: TreeView, image: Image)
    requires
        rooted(image),
        tree_shows(t, image),
    ensures
        forall|p: Path| #[trigger]
            image.contains_key(p) <==> exists|n: TreeView| #[trigger] within(t, n) && n.path == p,
        forall|n: TreeView| #[trigger]
            within(t, n) ==> n.kind == image[n.path].kind && n.source_layer == Some(
                image[n.path].source,
            ),
{
    assert forall|i: int| 0 <= i < t.children.len() implies node_shows(
        #[trigger] t.children[i],
        image,
    ) && image.contains_key(t.children[i].path) by {
        assert(tree_paths(t.children)[i] == t.children[i].path);
        assert(tree_paths(t.children).contains(t.children[i].path));
    }
    assert forall|n: TreeView| #[trigger] within(t, n) implies node_shows(n, image)
        && image.contains_key(n.path) by {
        lemma_within_shows(t, image, n);
    }
    assert forall|p: Path| #[trigger]
        image.contains_key(p) <==> exists|n: TreeView| #[trigger]
            within(t, n) && n.path == p by {
        if image.contains_key(p) {
            let n = lemma_node_of(t, image, p);
            assert(within(t, n) && n.path == p);
        }
    }
}

// ---------------------------------------------------------------------------
// Totals
// ---------------------------------------------------------------------------

/// The ancestors of finitely many paths are finitely many.
proof fn lemma_finite_above(list: Seq<Path>)
    ensures
        Set::new(|p: Path| above(list, p)).finite(),
    decreases list.len(),
{
    let all = Set::new(|p: Path| above(list, p));
    if list.len() == 0 {
        assert(all =~= Set::<Path>::empty());
    } else {
        let rest = list.drop_last();
        let t = list.last();
        lemma_finite_above(rest);
        let few = Set::new(|p: Path| above(rest, p));
        let own = Seq::new(t.len(), |i: int| t.take(i));
        vstd::seq_lib::seq_to_set_is_finite(own);
        assert forall|p: Path| all.contains(p) implies few.union(own.to_set()).contains(p) by {
            lemma_push_above(rest, t, p);
            assert(list =~= rest.push(t));
            if under(t, p) {
                assert(own[p.len() as int] == p);
                assert(own.contains(p));
            }
        }
        assert(all.subset_of(few.union(own.to_set())));
        vstd::set_lib::lemma_set_subset_finite(few.union(own.to_set()), all);
    }
}

/// A merged image is finite.
pub proof fn law_finite(layers: Seq<LayerView>)
    ensures
        image_after(layers).dom().finite(),
    decreases layers.len(),
{
    if layers.len() > 0 {
        let low = image_after(layers.drop_last());
        let layer = layers.last();
        law_finite(layers.drop_last());
        lemma_finite_above(layer.writes);
        lemma_finite_above(layer.mkdirs);
        vstd::seq_lib::seq_to_set_is_finite(layer.writes);
        vstd::seq_lib::seq_to_set_is_finite(layer.mkdirs);
        let made = layer.writes.to_set().union(layer.mkdirs.to_set());
        let parents = Set::new(|p: Path| above(layer.writes, p)).union(
            Set::new(|p: Path| above(layer.mkdirs, p)),
        );
        let all = low.dom().union(made).union(parents);
        assert(image_after(layers).dom().subset_of(all));
        vstd::set_lib::lemma_set_subset_finite(all, image_after(layers).dom());
    }
}

/// Files and directories together are all live paths.
pub proof fn law_totals(
    out: OutputView,
    image: Image,
    log: Set<ObscuredView>,
    layers: nat,
)
    requires
        image.dom().finite(),
        describes(out, image, log, layers),
    ensures
        out.stats.files + out.stats.dirs == image.dom().len(),
        out.stats.layers == layers,
        out.stats.obscured == out.obscured.len(),
{
    let ps = file_paths(out.files);
    let files = ps.to_set();
    let dirs = image.dom().filter(|p: Path| image[p].kind is Dir);
    lemma_ascending_distinct(ps);
    ps.unique_seq_to_set();
    vstd::seq_lib::seq_to_set_is_finite(ps);
    assert(files.union(dirs) =~= image.dom());
    assert(files.disjoint(dirs));
    vstd::set_lib::lemma_set_disjoint_lens(files, dirs);
}

} // verus!
