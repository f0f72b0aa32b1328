//! What merging many layers does, layer by layer: what is live afterwards, what
//! is logged, which layers are refused and with which words.
//!
//! Everything here is said of the layers as they are listed and of the images
//! below and above a layer, path by path.
use vstd::prelude::*;
use crate::apply::lemma_topmost_exists;
use crate::laws::{law_kept_or_logged, law_kept_or_new, law_sources};
use crate::merge::lemma_log_entry;
use crate::model::{
    above, acceptable, all_fit, bad_opaque, below, blocked, blocked_by, clash, coherent, conflict,
    first_bad_opaque, first_blocked, first_clash, first_repeat, first_shared, hidden, image_after,
    layer_fits, layer_image, log_after, makes_dir, merge_refusal, opaque_refusal, parent_refusal, refusal, repeat_error, topmost,
    whited_out, Image, Node,
};
use crate::path::{lemma_lt_asymmetric, lemma_lt_total, path_lt, under, Path};
use crate::types::{ErrorCode, ErrorView, Kind, LayerView, ObscuredView, Reason};

verus! {

// ---------------------------------------------------------------------------
// The image
// ---------------------------------------------------------------------------

/// One more layer.
proof fn lemma_step(layers: Seq<LayerView>, k: int)
    requires
        0 <= k < layers.len(),
    ensures
        image_after(layers.take(k + 1)) == layer_image(
            image_after(layers.take(k)),
            layers[k],
            k as nat,
        ),
{
    let high = layers.take(k + 1);
    assert(high.drop_last() =~= layers.take(k));
    assert(high.last() == layers[k]);
}

/// Before the first layer there is nothing, neither live nor logged.
pub proof fn law_nothing_at_first(layers: Seq<LayerView>)
    ensures
        layers.len() == 0 ==> forall|p: Path| !#[trigger] image_after(layers).contains_key(p),
        layers.len() == 0 ==> forall|e: ObscuredView| !#[trigger] log_after(layers).contains(e),
{
}

/// What is live above a layer: what it writes, what it makes, the parents of
/// both, and what was live below unless a whiteout names it or lies above it, an opaque
/// marker lies above it, or a written file lies above it.
pub proof fn law_live_above(layers: Seq<LayerView>, k: int, p: Path)
    requires
        0 <= k < layers.len(),
    ensures
        ({
            let l = layers[k];
            image_after(layers.take(k + 1)).contains_key(p) <==> {
                ||| l.writes.contains(p)
                ||| l.mkdirs.contains(p)
                ||| exists|t: Path| #[trigger] l.writes.contains(t) && under(t, p)
                ||| exists|t: Path| #[trigger] l.mkdirs.contains(t) && under(t, p)
                ||| {
                    &&& image_after(layers.take(k)).contains_key(p)
                    &&& !l.whiteouts.contains(p)
                    &&& !exists|w: Path| #[trigger] l.whiteouts.contains(w) && under(p, w)
                    &&& !exists|o: Path| #[trigger] l.opaques.contains(o) && under(p, o)
                    &&& !exists|w: Path| #[trigger] l.writes.contains(w) && under(p, w)
                }
            }
        }),
{
    lemma_step(layers, k);
}

/// What a layer writes is a file of that layer.
pub proof fn law_written_file(layers: Seq<LayerView>, k: int, p: Path)
    requires
        0 <= k < layers.len(),
        layers[k].writes.contains(p),
    ensures
        image_after(layers.take(k + 1)).contains_key(p),
        image_after(layers.take(k + 1))[p].kind == Kind::File,
        image_after(layers.take(k + 1))[p].source == k,
{
    lemma_step(layers, k);
}

/// What a layer makes a directory, by name or as a parent, is the directory that
/// was live below where nothing deletes it, and a directory of that layer otherwise.
pub proof fn law_made_directory(layers: Seq<LayerView>, k: int, p: Path)
    requires
        0 <= k < layers.len(),
        !layers[k].writes.contains(p),
        layers[k].mkdirs.contains(p) || (exists|t: Path| #[trigger]
            layers[k].writes.contains(t) && under(t, p)) || (exists|t: Path| #[trigger]
            layers[k].mkdirs.contains(t) && under(t, p)),
    ensures
        ({
            let l = layers[k];
            let low = image_after(layers.take(k));
            let high = image_after(layers.take(k + 1));
            let kept = {
                &&& low.contains_key(p)
                &&& low[p].kind == Kind::Dir
                &&& !l.whiteouts.contains(p)
                &&& !exists|w: Path| #[trigger] l.whiteouts.contains(w) && under(p, w)
                &&& !exists|o: Path| #[trigger] l.opaques.contains(o) && under(p, o)
            };
            &&& high.contains_key(p)
            &&& high[p].kind == Kind::Dir
            &&& kept ==> high[p].source == low[p].source
            &&& !kept ==> high[p].source == k
        }),
{
    lemma_step(layers, k);
}

/// What a layer neither writes nor makes is as it was below, if it is live.
pub proof fn law_untouched(layers: Seq<LayerView>, k: int, p: Path)
    requires
        0 <= k < layers.len(),
        image_after(layers.take(k + 1)).contains_key(p),
        !layers[k].writes.contains(p),
        !layers[k].mkdirs.contains(p),
        !exists|t: Path| #[trigger] layers[k].writes.contains(t) && under(t, p),
        !exists|t: Path| #[trigger] layers[k].mkdirs.contains(t) && under(t, p),
    ensures
        image_after(layers.take(k)).contains_key(p),
        image_after(layers.take(k + 1))[p].kind == image_after(layers.take(k))[p].kind,
        image_after(layers.take(k + 1))[p].source == image_after(layers.take(k))[p].source,
{
    lemma_step(layers, k);
}

/// What a whiteout names, and what lies beneath it, is gone unless the layer
/// itself creates it; so is what lies beneath an opaque marker.
pub proof fn law_deleted_is_gone(layers: Seq<LayerView>, k: int, w: Path, p: Path)
    requires
        0 <= k < layers.len(),
        layers[k].whiteouts.contains(w) && (p == w || under(p, w)) || layers[k].opaques.contains(
            w,
        ) && under(p, w),
        !layers[k].writes.contains(p),
        !layers[k].mkdirs.contains(p),
        !exists|t: Path| #[trigger] layers[k].writes.contains(t) && under(t, p),
        !exists|t: Path| #[trigger] layers[k].mkdirs.contains(t) && under(t, p),
    ensures
        !image_after(layers.take(k + 1)).contains_key(p),
{
    law_live_above(layers, k, p);
}

// ---------------------------------------------------------------------------
// The log
// ---------------------------------------------------------------------------

/// Why an entry is in the log: each of the seven reasons has its own condition on
/// the layer that hid the path and on what stood there.
pub proof fn law_reasons(layers: Seq<LayerView>, e: ObscuredView)
    requires
        log_after(layers).contains(e),
    ensures
        ({
            let k = e.by_layer as int;
            let p = e.path;
            let l = layers[k];
            let low = image_after(layers.take(k));
            let under_whiteout = exists|w: Path| #[trigger] l.whiteouts.contains(w) && under(p, w);
            let under_opaque = exists|o: Path| #[trigger] l.opaques.contains(o) && under(p, o);
            let under_write = exists|w: Path| #[trigger] l.writes.contains(w) && under(p, w);
            let spared = !under_whiteout && !l.whiteouts.contains(p) && !under_opaque;
            &&& k < layers.len()
            &&& low.contains_key(p)
            &&& e.source_layer == low[p].source
            &&& e.reason == Reason::WhiteoutAncestor <==> under_whiteout
            &&& e.reason == Reason::Whiteout <==> l.whiteouts.contains(p) && !under_whiteout
            &&& e.reason == Reason::OpaqueAncestor <==> !under_whiteout && !l.whiteouts.contains(p)
                && under_opaque
            &&& e.reason == Reason::Overwritten <==> spared && l.writes.contains(p) && low[p].kind
                == Kind::File
            &&& e.reason == Reason::ReplacedByFile <==> spared && l.writes.contains(p)
                && low[p].kind == Kind::Dir
            &&& e.reason == Reason::ReplacedAncestor <==> spared && !l.writes.contains(p)
                && under_write
            &&& e.reason == Reason::ReplacedByDir <==> spared && !l.writes.contains(p)
                && !under_write && l.mkdirs.contains(p) && low[p].kind == Kind::File
        }),
{
    lemma_log_entry(layers, e);
}

/// What an entry names as responsible: nothing where a record of the layer names
/// the path itself, and otherwise the shortest record of its sort above the path.
pub proof fn law_responsible(layers: Seq<LayerView>, e: ObscuredView)
    requires
        log_after(layers).contains(e),
    ensures
        ({
            let l = layers[e.by_layer as int];
            let p = e.path;
            &&& e.reason == Reason::Whiteout || e.reason == Reason::Overwritten || e.reason
                == Reason::ReplacedByFile || e.reason == Reason::ReplacedByDir ==> e.via is None
            &&& e.reason == Reason::WhiteoutAncestor ==> {
                &&& e.via is Some
                &&& l.whiteouts.contains(e.via->0)
                &&& under(p, e.via->0)
                &&& forall|w: Path| #[trigger]
                    l.whiteouts.contains(w) && under(p, w) ==> (e.via->0).len() <= w.len()
            }
            &&& e.reason == Reason::OpaqueAncestor ==> {
                &&& e.via is Some
                &&& l.opaques.contains(e.via->0)
                &&& under(p, e.via->0)
                &&& forall|o: Path| #[trigger]
                    l.opaques.contains(o) && under(p, o) ==> (e.via->0).len() <= o.len()
            }
            &&& e.reason == Reason::ReplacedAncestor ==> {
                &&& e.via is Some
                &&& l.writes.contains(e.via->0)
                &&& under(p, e.via->0)
                &&& forall|w: Path| #[trigger]
                    l.writes.contains(w) && under(p, w) ==> (e.via->0).len() <= w.len()
            }
        }),
{
    lemma_log_entry(layers, e);
    let l = layers[e.by_layer as int];
    if below(l.whiteouts, e.path) {
        lemma_topmost_exists(l.whiteouts, e.path);
    }
    if below(l.opaques, e.path) {
        lemma_topmost_exists(l.opaques, e.path);
    }
    if below(l.writes, e.path) {
        lemma_topmost_exists(l.writes, e.path);
    }
}

/// A path is logged by a layer exactly where it was live below and the layer
/// deletes it, hides it, writes it, writes above it, or makes a directory of a file.
pub proof fn law_logged_exactly(layers: Seq<LayerView>, k: int, p: Path)
    requires
        0 <= k < layers.len(),
    ensures
        ({
            let l = layers[k];
            let low = image_after(layers.take(k));
            (exists|e: ObscuredView| #[trigger]
                log_after(layers).contains(e) && e.by_layer == k && e.path == p) <==> {
                &&& low.contains_key(p)
                &&& {
                    ||| l.whiteouts.contains(p)
                    ||| exists|w: Path| #[trigger] l.whiteouts.contains(w) && under(p, w)
                    ||| exists|o: Path| #[trigger] l.opaques.contains(o) && under(p, o)
                    ||| l.writes.contains(p)
                    ||| exists|w: Path| #[trigger] l.writes.contains(w) && under(p, w)
                    ||| l.mkdirs.contains(p) && low[p].kind == Kind::File
                }
            }
        }),
{
    let l = layers[k];
    let low = image_after(layers.take(k));
    if exists|e: ObscuredView| #[trigger]
        log_after(layers).contains(e) && e.by_layer == k && e.path == p {
        let e = choose|e: ObscuredView| #[trigger]
            log_after(layers).contains(e) && e.by_layer == k && e.path == p;
        law_reasons(layers, e);
    }
    if hidden(low, l, k as nat, p) is Some {
        let e = hidden(low, l, k as nat, p)->0;
        lemma_log_entry(layers, e);
        assert(log_after(layers).contains(e) && e.by_layer == k && e.path == p);
    }
}

/// What the log says is hidden is hidden: above the layer, the path is gone or
/// holds something that the layer put there.
pub proof fn law_logged_is_hidden(layers: Seq<LayerView>, e: ObscuredView)
    requires
        all_fit(layers),
        log_after(layers).contains(e),
    ensures
        image_after(layers.take(e.by_layer as int + 1)).contains_key(e.path) ==> image_after(
            layers.take(e.by_layer as int + 1),
        )[e.path].source == e.by_layer,
        e.source_layer < e.by_layer,
{
    lemma_log_entry(layers, e);
    let k = e.by_layer as int;
    let low = layers.take(k);
    lemma_step(layers, k);
    assert(layer_fits(layers, k));
    law_sources(low, e.path);
    law_kept_or_logged(image_after(low), layers[k], k as nat, e.path);
    if image_after(layers.take(k + 1)).contains_key(e.path) {
        law_kept_or_new(image_after(low), layers[k], k as nat, e.path);
    }
}

/// What is not logged stays: above the layer, the same thing stands at the path.
pub proof fn law_not_logged_stays(layers: Seq<LayerView>, k: int, p: Path)
    requires
        all_fit(layers),
        0 <= k < layers.len(),
        image_after(layers.take(k)).contains_key(p),
        !exists|e: ObscuredView| #[trigger]
            log_after(layers).contains(e) && e.by_layer == k && e.path == p,
    ensures
        image_after(layers.take(k + 1)).contains_key(p),
        image_after(layers.take(k + 1))[p].kind == image_after(layers.take(k))[p].kind,
        image_after(layers.take(k + 1))[p].source == image_after(layers.take(k))[p].source,
{
    let low = layers.take(k);
    lemma_step(layers, k);
    assert(layer_fits(layers, k));
    law_sources(low, p);
    law_kept_or_logged(image_after(low), layers[k], k as nat, p);
    if hidden(image_after(low), layers[k], k as nat, p) is Some {
        let e = hidden(image_after(low), layers[k], k as nat, p)->0;
        lemma_log_entry(layers, e);
        assert(log_after(layers).contains(e) && e.by_layer == k && e.path == p);
    }
}

// ---------------------------------------------------------------------------
// Which layers fit
// ---------------------------------------------------------------------------

/// A layer does not contradict itself exactly where no list names a path twice,
/// no written path is made a directory or lies above anything that the layer writes or
/// makes, and no path is both a whiteout and an opaque marker.
pub proof fn law_coherent(l: LayerView)
    ensures
        coherent(l) <==> {
            &&& forall|i: int, j: int| 0 <= i < j < l.writes.len() ==> l.writes[i] != l.writes[j]
            &&& forall|i: int, j: int| 0 <= i < j < l.mkdirs.len() ==> l.mkdirs[i] != l.mkdirs[j]
            &&& forall|i: int, j: int|
                0 <= i < j < l.whiteouts.len() ==> l.whiteouts[i] != l.whiteouts[j]
            &&& forall|i: int, j: int|
                0 <= i < j < l.opaques.len() ==> l.opaques[i] != l.opaques[j]
            &&& forall|w: Path| #[trigger] l.writes.contains(w) ==> !l.mkdirs.contains(w)
            &&& forall|w: Path, t: Path| #[trigger]
                l.writes.contains(w) && #[trigger] l.writes.contains(t) ==> !under(t, w)
            &&& forall|w: Path, t: Path| #[trigger]
                l.writes.contains(w) && #[trigger] l.mkdirs.contains(t) ==> !under(t, w)
            &&& forall|o: Path| #[trigger] l.opaques.contains(o) ==> !l.whiteouts.contains(o)
        },
{
    if coherent(l) {
        assert forall|w: Path| #[trigger] l.writes.contains(w) implies !l.mkdirs.contains(w) by {
            assert(!clash(l, w));
        }
        assert forall|w: Path, t: Path| #[trigger]
            l.writes.contains(w) && #[trigger] l.writes.contains(t) implies !under(t, w) by {
            assert(!clash(l, w));
            if under(t, w) {
                assert(above(l.writes, w));
            }
        }
        assert forall|w: Path, t: Path| #[trigger]
            l.writes.contains(w) && #[trigger] l.mkdirs.contains(t) implies !under(t, w) by {
            assert(!clash(l, w));
            if under(t, w) {
                assert(above(l.mkdirs, w));
            }
        }
    }
}

/// A layer fits on an image exactly where it does not contradict itself, every
/// opaque marker names a directory of the image or a path outside the image that the layer
/// makes a directory, and nothing is created beneath a file of the image, unless the layer
/// makes the file a directory or deletes it.
pub proof fn law_acceptable(image: Image, l: LayerView)
    ensures
        acceptable(image, l) <==> {
            &&& coherent(l)
            &&& forall|o: Path| #[trigger]
                l.opaques.contains(o) ==> if image.contains_key(o) {
                    image[o].kind == Kind::Dir
                } else {
                    ||| l.mkdirs.contains(o)
                    ||| exists|t: Path| #[trigger] l.writes.contains(t) && under(t, o)
                    ||| exists|t: Path| #[trigger] l.mkdirs.contains(t) && under(t, o)
                }
            &&& forall|p: Path, a: Path|
                (l.writes.contains(p) || l.mkdirs.contains(p)) && #[trigger] under(p, a)
                    && image.contains_key(a) && image[a].kind == Kind::File ==> {
                    ||| l.mkdirs.contains(a)
                    ||| l.whiteouts.contains(a)
                    ||| exists|w: Path| #[trigger] l.whiteouts.contains(w) && under(a, w)
                }
        },
{
    if acceptable(image, l) {
        assert forall|o: Path| #[trigger] l.opaques.contains(o) implies if image.contains_key(o) {
            image[o].kind == Kind::Dir
        } else {
            ||| l.mkdirs.contains(o)
            ||| exists|t: Path| #[trigger] l.writes.contains(t) && under(t, o)
            ||| exists|t: Path| #[trigger] l.mkdirs.contains(t) && under(t, o)
        } by {
            assert(!bad_opaque(image, l, o));
        }
        assert forall|p: Path, a: Path|
            (l.writes.contains(p) || l.mkdirs.contains(p)) && #[trigger] under(p, a)
                && image.contains_key(a) && image[a].kind == Kind::File implies {
            ||| l.mkdirs.contains(a)
            ||| l.whiteouts.contains(a)
            ||| exists|w: Path| #[trigger] l.whiteouts.contains(w) && under(a, w)
        } by {
            assert(!blocked(image, l, p));
            assert(!blocked_by(image, l, p, a));
        }
    }
}

/// Layers fit exactly where each of them fits on what those below it add up to.
pub proof fn law_all_fit(layers: Seq<LayerView>)
    ensures
        all_fit(layers) <==> forall|k: int|
            0 <= k < layers.len() ==> acceptable(image_after(layers.take(k)), #[trigger] layers[k]),
{
    if all_fit(layers) {
        assert forall|k: int| 0 <= k < layers.len() implies acceptable(
            image_after(layers.take(k)),
            #[trigger] layers[k],
        ) by {
            assert(layer_fits(layers, k));
        }
    }
}

// ---------------------------------------------------------------------------
// How layers are refused
// ---------------------------------------------------------------------------

/// A merge is refused for the first layer that does not fit, with the error of
/// that layer on what those below it add up to.
pub proof fn law_first_refused(layers: Seq<LayerView>, e: ErrorView)
    ensures
        merge_refusal(layers, e) <==> exists|k: int|
            {
                &&& 0 <= k < layers.len()
                &&& all_fit(layers.take(k))
                &&& !acceptable(image_after(layers.take(k)), layers[k])
                &&& refusal(image_after(layers.take(k)), #[trigger] layers[k], k as nat, e)
            },
{
    assert forall|k: int| 0 <= k < layers.len() implies (all_fit(#[trigger] layers.take(k))
        <==> forall|i: int| 0 <= i < k ==> #[trigger] layer_fits(layers, i)) by {
        let low = layers.take(k);
        assert forall|i: int| 0 <= i < k implies #[trigger] layer_fits(layers, i) == layer_fits(
            low,
            i,
        ) by {
            assert(low.take(i) =~= layers.take(i));
        }
        if all_fit(low) {
            assert forall|i: int| 0 <= i < k implies #[trigger] layer_fits(layers, i) by {
                assert(layer_fits(low, i));
            }
        }
        if forall|i: int| 0 <= i < k ==> #[trigger] layer_fits(layers, i) {
            assert forall|i: int| 0 <= i < low.len() implies #[trigger] layer_fits(low, i) by {
                assert(layer_fits(layers, i));
            }
        }
    }
    if merge_refusal(layers, e) {
        let k = choose|k: int|
            {
                &&& 0 <= k < layers.len()
                &&& !(#[trigger] layer_fits(layers, k))
                &&& forall|i: int| 0 <= i < k ==> #[trigger] layer_fits(layers, i)
                &&& refusal(image_after(layers.take(k)), layers[k], k as nat, e)
            };
        assert(all_fit(layers.take(k)));
        assert(!acceptable(image_after(layers.take(k)), layers[k]));
    }
    if exists|k: int|
        {
            &&& 0 <= k < layers.len()
            &&& all_fit(layers.take(k))
            &&& !acceptable(image_after(layers.take(k)), layers[k])
            &&& refusal(image_after(layers.take(k)), #[trigger] layers[k], k as nat, e)
        } {
        let k = choose|k: int|
            {
                &&& 0 <= k < layers.len()
                &&& all_fit(layers.take(k))
                &&& !acceptable(image_after(layers.take(k)), layers[k])
                &&& refusal(image_after(layers.take(k)), #[trigger] layers[k], k as nat, e)
            };
        assert(!layer_fits(layers, k));
    }
}

/// The list names some path twice.
pub open spec fn repeats(list: Seq<Path>) -> bool {
    exists|i: int, j: int| 0 <= i < j < list.len() && #[trigger] list[i] == #[trigger] list[j]
}

/// The error tells of the first path that the list names for the second time.
pub open spec fn tells_of_repeat(
    list: Seq<Path>,
    tail: Seq<char>,
    idx: nat,
    e: ErrorView,
) -> bool {
    exists|j: int|
        {
            &&& 0 <= j < list.len()
            &&& exists|i: int| 0 <= i < j && #[trigger] list[i] == list[j]
            &&& forall|a: int, b: int| 0 <= a < b < j ==> list[a] != list[b]
            &&& e.code == ErrorCode::LayerConflict
            &&& e.message == "duplicate path '"@ + #[trigger] list[j] + tail
            &&& e.layer == Some(idx)
            &&& e.path == Some(list[j])
        }
}

/// The error for a list that names a path twice, in the words of that list.
proof fn lemma_repeat_told(
    list: Seq<Path>,
    name: Seq<char>,
    tail: Seq<char>,
    idx: nat,
    e: ErrorView,
)
    requires
        tail == "' in "@ + name,
    ensures
        repeat_error(idx, list, name, e) <==> tells_of_repeat(list, tail, idx, e),
        !list.no_duplicates() <==> repeats(list),
{
    assert forall|j: int| 0 <= j < list.len() implies (#[trigger] first_repeat(list, j) <==> (
    exists|i: int| 0 <= i < j && #[trigger] list[i] == list[j]) && forall|a: int, b: int|
        0 <= a < b < j ==> list[a] != list[b]) by {
        let t = list.take(j);
        if t.contains(list[j]) {
            let i = choose|i: int| 0 <= i < t.len() && t[i] == list[j];
            assert(list[i] == list[j]);
        }
        if exists|i: int| 0 <= i < j && #[trigger] list[i] == list[j] {
            let i = choose|i: int| 0 <= i < j && #[trigger] list[i] == list[j];
            assert(t[i] == list[j]);
        }
        if t.no_duplicates() {
            assert forall|a: int, b: int| 0 <= a < b < j implies list[a] != list[b] by {
                assert(t[a] != t[b]);
            }
        }
    }
    assert forall|j: int|
        0 <= j < list.len() implies "duplicate path '"@ + list[j] + "' in "@ + name
        == "duplicate path '"@ + #[trigger] list[j] + tail by {
        assert("duplicate path '"@ + list[j] + "' in "@ + name =~= "duplicate path '"@ + list[j]
            + tail);
    }
    if repeat_error(idx, list, name, e) {
        let j = choose|j: int| #[trigger]
            first_repeat(list, j) && e == ErrorView::new(
                ErrorCode::LayerConflict,
                "duplicate path '"@ + list[j] + "' in "@ + name,
            ).at(idx, list[j]);
        assert(list[j] == list[j]);
    }
    if tells_of_repeat(list, tail, idx, e) {
        let j = choose|j: int|
            {
                &&& 0 <= j < list.len()
                &&& exists|i: int| 0 <= i < j && #[trigger] list[i] == list[j]
                &&& forall|a: int, b: int| 0 <= a < b < j ==> list[a] != list[b]
                &&& e.code == ErrorCode::LayerConflict
                &&& e.message == "duplicate path '"@ + #[trigger] list[j] + tail
                &&& e.layer == Some(idx)
                &&& e.path == Some(list[j])
            };
        assert(first_repeat(list, j));
    }
}

/// A path that a list names twice is refused first, list by list, in these words.
pub proof fn law_repeat_refused(image: Image, l: LayerView, idx: nat, e: ErrorView)
    ensures
        repeats(l.writes) ==> (refusal(image, l, idx, e) <==> tells_of_repeat(
            l.writes,
            "' in writes"@,
            idx,
            e,
        )),
        !repeats(l.writes) && repeats(l.mkdirs) ==> (refusal(image, l, idx, e) <==> tells_of_repeat(
            l.mkdirs,
            "' in mkdirs"@,
            idx,
            e,
        )),
        !repeats(l.writes) && !repeats(l.mkdirs) && repeats(l.whiteouts) ==> (refusal(
            image,
            l,
            idx,
            e,
        ) <==> tells_of_repeat(l.whiteouts, "' in whiteouts"@, idx, e)),
        !repeats(l.writes) && !repeats(l.mkdirs) && !repeats(l.whiteouts) && repeats(l.opaques)
            ==> (refusal(image, l, idx, e) <==> tells_of_repeat(
            l.opaques,
            "' in opaques"@,
            idx,
            e,
        )),
{
    reveal_strlit("' in ");
    reveal_strlit("writes");
    reveal_strlit("mkdirs");
    reveal_strlit("whiteouts");
    reveal_strlit("opaques");
    reveal_strlit("' in writes");
    reveal_strlit("' in mkdirs");
    reveal_strlit("' in whiteouts");
    reveal_strlit("' in opaques");
    assert("' in writes"@ =~= "' in "@ + "writes"@);
    assert("' in mkdirs"@ =~= "' in "@ + "mkdirs"@);
    assert("' in whiteouts"@ =~= "' in "@ + "whiteouts"@);
    assert("' in opaques"@ =~= "' in "@ + "opaques"@);
    lemma_repeat_told(l.writes, "writes"@, "' in writes"@, idx, e);
    lemma_repeat_told(l.mkdirs, "mkdirs"@, "' in mkdirs"@, idx, e);
    lemma_repeat_told(l.whiteouts, "whiteouts"@, "' in whiteouts"@, idx, e);
    lemma_repeat_told(l.opaques, "opaques"@, "' in opaques"@, idx, e);
}

/// The layer writes the path and also makes it a directory, by name or as a parent.
pub open spec fn file_and_directory(l: LayerView, p: Path) -> bool {
    &&& l.writes.contains(p)
    &&& {
        ||| l.mkdirs.contains(p)
        ||| exists|t: Path| #[trigger] l.writes.contains(t) && under(t, p)
        ||| exists|t: Path| #[trigger] l.mkdirs.contains(t) && under(t, p)
    }
}

/// Next, a path that is to be a file and a directory is refused: the first such
/// path in path order, in these words.
pub proof fn law_clash_refused(image: Image, l: LayerView, idx: nat, e: ErrorView)
    requires
        !repeats(l.writes),
        !repeats(l.mkdirs),
        !repeats(l.whiteouts),
        !repeats(l.opaques),
        exists|p: Path| file_and_directory(l, p),
    ensures
        refusal(image, l, idx, e) <==> exists|p: Path|
            {
                &&& #[trigger] file_and_directory(l, p)
                &&& forall|q: Path| #[trigger]
                    file_and_directory(l, q) && q != p ==> path_lt(p, q)
                &&& e.code == ErrorCode::LayerConflict
                &&& e.message == "path '"@ + p + "' is both a file (writes) and a directory"@
                &&& e.layer == Some(idx)
                &&& e.path == Some(p)
            },
{
    lemma_repeat_told(l.writes, "writes"@, "' in "@ + "writes"@, idx, e);
    lemma_repeat_told(l.mkdirs, "mkdirs"@, "' in "@ + "mkdirs"@, idx, e);
    lemma_repeat_told(l.whiteouts, "whiteouts"@, "' in "@ + "whiteouts"@, idx, e);
    lemma_repeat_told(l.opaques, "opaques"@, "' in "@ + "opaques"@, idx, e);
    assert forall|p: Path|
        #![trigger file_and_directory(l, p)]
        #![trigger clash(l, p)]
        file_and_directory(l, p) <==> clash(l, p) by {}
    let w = choose|p: Path| file_and_directory(l, p);
    assert(clash(l, w));
    assert forall|p: Path|
        #![trigger first_clash(l, p)]
        first_clash(l, p) <==> file_and_directory(l, p) && forall|q: Path| #[trigger]
            file_and_directory(l, q) && q != p ==> path_lt(p, q) by {
        if first_clash(l, p) {
            assert forall|q: Path| #[trigger] file_and_directory(l, q) && q != p implies path_lt(
                p,
                q,
            ) by {
                assert(clash(l, q));
            }
        }
        if file_and_directory(l, p) && forall|q: Path| #[trigger]
            file_and_directory(l, q) && q != p ==> path_lt(p, q) {
            assert forall|q: Path| #[trigger] clash(l, q) implies q == p || path_lt(p, q) by {
                assert(file_and_directory(l, q));
            }
        }
    }
    if exists|p: Path|
        {
            &&& #[trigger] file_and_directory(l, p)
            &&& forall|q: Path| #[trigger] file_and_directory(l, q) && q != p ==> path_lt(p, q)
            &&& e.code == ErrorCode::LayerConflict
            &&& e.message == "path '"@ + p + "' is both a file (writes) and a directory"@
            &&& e.layer == Some(idx)
            &&& e.path == Some(p)
        } {
        let p = choose|p: Path|
            {
                &&& #[trigger] file_and_directory(l, p)
                &&& forall|q: Path| #[trigger]
                    file_and_directory(l, q) && q != p ==> path_lt(p, q)
                &&& e.code == ErrorCode::LayerConflict
                &&& e.message == "path '"@ + p + "' is both a file (writes) and a directory"@
                &&& e.layer == Some(idx)
                &&& e.path == Some(p)
            };
        assert(first_clash(l, p));
    }
    if refusal(image, l, idx, e) {
        let p = choose|p: Path| #[trigger]
            first_clash(l, p) && e == ErrorView::new(
                ErrorCode::LayerConflict,
                "path '"@ + p + "' is both a file (writes) and a directory"@,
            ).at(idx, p);
        assert(file_and_directory(l, p));
    }
}

/// Last of the conflicts, a path that is a whiteout and an opaque marker is
/// refused: the first such opaque marker as listed, in these words.
pub proof fn law_shared_refused(image: Image, l: LayerView, idx: nat, e: ErrorView)
    requires
        !repeats(l.writes),
        !repeats(l.mkdirs),
        !repeats(l.whiteouts),
        !repeats(l.opaques),
        forall|p: Path| !file_and_directory(l, p),
        exists|o: Path| #[trigger] l.opaques.contains(o) && l.whiteouts.contains(o),
    ensures
        refusal(image, l, idx, e) <==> exists|j: int|
            {
                &&& 0 <= j < l.opaques.len()
                &&& l.whiteouts.contains(l.opaques[j])
                &&& forall|i: int|
                    0 <= i < j ==> !l.whiteouts.contains(#[trigger] l.opaques[i])
                &&& e.code == ErrorCode::LayerConflict
                &&& e.message == "path '"@ + #[trigger] l.opaques[j]
                    + "' is both a whiteout and an opaque directory"@
                &&& e.layer == Some(idx)
                &&& e.path == Some(l.opaques[j])
            },
{
    lemma_repeat_told(l.writes, "writes"@, "' in "@ + "writes"@, idx, e);
    lemma_repeat_told(l.mkdirs, "mkdirs"@, "' in "@ + "mkdirs"@, idx, e);
    lemma_repeat_told(l.whiteouts, "whiteouts"@, "' in "@ + "whiteouts"@, idx, e);
    lemma_repeat_told(l.opaques, "opaques"@, "' in "@ + "opaques"@, idx, e);
    assert forall|p: Path| !clash(l, p) by {
        assert(!file_and_directory(l, p));
    }
    assert(!coherent(l));
    if refusal(image, l, idx, e) {
        let j = choose|j: int| #[trigger]
            first_shared(l, j) && e == ErrorView::new(
                ErrorCode::LayerConflict,
                "path '"@ + l.opaques[j] + "' is both a whiteout and an opaque directory"@,
            ).at(idx, l.opaques[j]);
        assert(l.opaques[j] == l.opaques[j]);
    }
    if exists|j: int|
        {
            &&& 0 <= j < l.opaques.len()
            &&& l.whiteouts.contains(l.opaques[j])
            &&& forall|i: int| 0 <= i < j ==> !l.whiteouts.contains(#[trigger] l.opaques[i])
            &&& e.code == ErrorCode::LayerConflict
            &&& e.message == "path '"@ + #[trigger] l.opaques[j]
                + "' is both a whiteout and an opaque directory"@
            &&& e.layer == Some(idx)
            &&& e.path == Some(l.opaques[j])
        } {
        let j = choose|j: int|
            {
                &&& 0 <= j < l.opaques.len()
                &&& l.whiteouts.contains(l.opaques[j])
                &&& forall|i: int| 0 <= i < j ==> !l.whiteouts.contains(#[trigger] l.opaques[i])
                &&& e.code == ErrorCode::LayerConflict
                &&& e.message == "path '"@ + #[trigger] l.opaques[j]
                    + "' is both a whiteout and an opaque directory"@
                &&& e.layer == Some(idx)
                &&& e.path == Some(l.opaques[j])
            };
        assert(first_shared(l, j));
    }
}

/// The layer marks a path opaque that is a file of the image, or that is not in
/// the image and that the layer does not make a directory.
pub open spec fn opaque_without_directory(image: Image, l: LayerView, o: Path) -> bool {
    &&& l.opaques.contains(o)
    &&& if image.contains_key(o) {
        image[o].kind == Kind::File
    } else {
        &&& !l.mkdirs.contains(o)
        &&& !exists|t: Path| #[trigger] l.writes.contains(t) && under(t, o)
        &&& !exists|t: Path| #[trigger] l.mkdirs.contains(t) && under(t, o)
    }
}

/// Of opaque markers without a directory, the first one in path order is refused,
/// in these words.
pub proof fn law_opaque_words(image: Image, l: LayerView, idx: nat, e: ErrorView)
    ensures
        forall|o: Path| #[trigger]
            bad_opaque(image, l, o) <==> opaque_without_directory(image, l, o),
        opaque_refusal(image, l, idx, e) <==> exists|o: Path|
            {
                &&& #[trigger] opaque_without_directory(image, l, o)
                &&& forall|q: Path| #[trigger]
                    opaque_without_directory(image, l, q) && q != o ==> path_lt(o, q)
                &&& e.code == ErrorCode::InvalidOpaque
                &&& image.contains_key(o) ==> e.message == "opaque path '"@ + o
                    + "' is a file, not a directory"@
                &&& !image.contains_key(o) ==> e.message == "opaque directory '"@ + o
                    + "' exists neither in lower layers nor in this layer"@
                &&& e.layer == Some(idx)
                &&& e.path == Some(o)
            },
{
    assert forall|o: Path|
        #![trigger opaque_without_directory(image, l, o)]
        #![trigger bad_opaque(image, l, o)]
        opaque_without_directory(image, l, o) <==> bad_opaque(image, l, o) by {}
    assert forall|o: Path|
        #![trigger first_bad_opaque(image, l, o)]
        first_bad_opaque(image, l, o) <==> opaque_without_directory(image, l, o) && forall|q: Path|
            #[trigger]
            opaque_without_directory(image, l, q) && q != o ==> path_lt(o, q) by {
        if first_bad_opaque(image, l, o) {
            assert forall|q: Path| #[trigger]
                opaque_without_directory(image, l, q) && q != o implies path_lt(o, q) by {
                assert(bad_opaque(image, l, q));
            }
        }
        if opaque_without_directory(image, l, o) && forall|q: Path| #[trigger]
            opaque_without_directory(image, l, q) && q != o ==> path_lt(o, q) {
            assert forall|q: Path| #[trigger] bad_opaque(image, l, q) implies q == o || path_lt(
                o,
                q,
            ) by {
                assert(opaque_without_directory(image, l, q));
            }
        }
    }
    if opaque_refusal(image, l, idx, e) {
        let o = choose|o: Path| #[trigger]
            first_bad_opaque(image, l, o) && e == ErrorView::new(
                ErrorCode::InvalidOpaque,
                if image.contains_key(o) {
                    "opaque path '"@ + o + "' is a file, not a directory"@
                } else {
                    "opaque directory '"@ + o
                        + "' exists neither in lower layers nor in this layer"@
                },
            ).at(idx, o);
        assert(opaque_without_directory(image, l, o));
    }
    if exists|o: Path|
        {
            &&& #[trigger] opaque_without_directory(image, l, o)
            &&& forall|q: Path| #[trigger]
                opaque_without_directory(image, l, q) && q != o ==> path_lt(o, q)
            &&& e.code == ErrorCode::InvalidOpaque
            &&& image.contains_key(o) ==> e.message == "opaque path '"@ + o
                + "' is a file, not a directory"@
            &&& !image.contains_key(o) ==> e.message == "opaque directory '"@ + o
                + "' exists neither in lower layers nor in this layer"@
            &&& e.layer == Some(idx)
            &&& e.path == Some(o)
        } {
        let o = choose|o: Path|
            {
                &&& #[trigger] opaque_without_directory(image, l, o)
                &&& forall|q: Path| #[trigger]
                    opaque_without_directory(image, l, q) && q != o ==> path_lt(o, q)
                &&& e.code == ErrorCode::InvalidOpaque
                &&& image.contains_key(o) ==> e.message == "opaque path '"@ + o
                    + "' is a file, not a directory"@
                &&& !image.contains_key(o) ==> e.message == "opaque directory '"@ + o
                    + "' exists neither in lower layers nor in this layer"@
                &&& e.layer == Some(idx)
                &&& e.path == Some(o)
            };
        assert(first_bad_opaque(image, l, o));
    }
}

/// Of a layer that does not contradict itself, an opaque marker without a
/// directory is refused: the first one in path order, in these words.
pub proof fn law_opaque_refused(image: Image, l: LayerView, idx: nat, e: ErrorView)
    requires
        coherent(l),
        exists|o: Path| opaque_without_directory(image, l, o),
    ensures
        refusal(image, l, idx, e) <==> exists|o: Path|
            {
                &&& #[trigger] opaque_without_directory(image, l, o)
                &&& forall|q: Path| #[trigger]
                    opaque_without_directory(image, l, q) && q != o ==> path_lt(o, q)
                &&& e.code == ErrorCode::InvalidOpaque
                &&& image.contains_key(o) ==> e.message == "opaque path '"@ + o
                    + "' is a file, not a directory"@
                &&& !image.contains_key(o) ==> e.message == "opaque directory '"@ + o
                    + "' exists neither in lower layers nor in this layer"@
                &&& e.layer == Some(idx)
                &&& e.path == Some(o)
            },
{
    law_opaque_words(image, l, idx, e);
    let w = choose|o: Path| opaque_without_directory(image, l, o);
    assert(bad_opaque(image, l, w));
}

/// The layer creates `p` beneath `a`, a file of the image that it neither makes a
/// directory nor deletes.
pub open spec fn created_beneath_file(image: Image, l: LayerView, p: Path, a: Path) -> bool {
    &&& l.writes.contains(p) || l.mkdirs.contains(p)
    &&& under(p, a)
    &&& image.contains_key(a)
    &&& image[a].kind == Kind::File
    &&& !l.mkdirs.contains(a)
    &&& !l.whiteouts.contains(a)
    &&& !exists|w: Path| #[trigger] l.whiteouts.contains(w) && under(a, w)
}

/// Of paths created beneath a file, the first one in path order is refused, with
/// the shortest such file, in these words.
pub proof fn law_parent_words(image: Image, l: LayerView, idx: nat, e: ErrorView)
    ensures
        forall|p: Path| #[trigger]
            blocked(image, l, p) <==> exists|a: Path| created_beneath_file(image, l, p, a),
        parent_refusal(image, l, idx, e) <==> exists|p: Path, a: Path|
            {
                &&& #[trigger] created_beneath_file(image, l, p, a)
                &&& forall|q: Path, b: Path| #[trigger]
                    created_beneath_file(image, l, q, b) && q != p ==> path_lt(p, q)
                &&& forall|b: Path| #[trigger]
                    created_beneath_file(image, l, p, b) ==> a.len() <= b.len()
                &&& e.code == ErrorCode::FileAsParent
                &&& e.message == "file '"@ + a + "' cannot serve as a parent directory of '"@ + p
                    + "'"@
                &&& e.layer == Some(idx)
                &&& e.path == Some(p)
            },
{
    assert forall|p: Path, a: Path|
        #![trigger created_beneath_file(image, l, p, a)]
        #![trigger blocked_by(image, l, p, a)]
        created_beneath_file(image, l, p, a) <==> blocked_by(image, l, p, a) by {}
    assert forall|p: Path| #[trigger]
        blocked(image, l, p) <==> exists|a: Path| created_beneath_file(image, l, p, a) by {
        if blocked(image, l, p) {
            let a = choose|a: Path| blocked_by(image, l, p, a);
            assert(created_beneath_file(image, l, p, a));
        }
        if exists|a: Path| created_beneath_file(image, l, p, a) {
            let a = choose|a: Path| created_beneath_file(image, l, p, a);
            assert(blocked_by(image, l, p, a));
        }
    }
    assert forall|p: Path, a: Path|
        #![trigger first_blocked(image, l, p, a)]
        first_blocked(image, l, p, a) <==> {
            &&& created_beneath_file(image, l, p, a)
            &&& forall|q: Path, b: Path| #[trigger]
                created_beneath_file(image, l, q, b) && q != p ==> path_lt(p, q)
            &&& forall|b: Path| #[trigger]
                created_beneath_file(image, l, p, b) ==> a.len() <= b.len()
        } by {
        if first_blocked(image, l, p, a) {
            assert forall|q: Path, b: Path| #[trigger]
                created_beneath_file(image, l, q, b) && q != p implies path_lt(p, q) by {
                assert(blocked_by(image, l, q, b));
                assert(blocked(image, l, q));
            }
            assert forall|b: Path| #[trigger] created_beneath_file(image, l, p, b) implies a.len()
                <= b.len() by {
                assert(blocked_by(image, l, p, b));
            }
        }
        if {
            &&& created_beneath_file(image, l, p, a)
            &&& forall|q: Path, b: Path| #[trigger]
                created_beneath_file(image, l, q, b) && q != p ==> path_lt(p, q)
            &&& forall|b: Path| #[trigger]
                created_beneath_file(image, l, p, b) ==> a.len() <= b.len()
        } {
            assert forall|q: Path| #[trigger] blocked(image, l, q) implies q == p || path_lt(
                p,
                q,
            ) by {
                let b = choose|b: Path| blocked_by(image, l, q, b);
                assert(created_beneath_file(image, l, q, b));
            }
            assert forall|b: Path| #[trigger] blocked_by(image, l, p, b) implies a.len()
                <= b.len() by {
                assert(created_beneath_file(image, l, p, b));
            }
        }
    }
    if parent_refusal(image, l, idx, e) {
        let (p, a) = choose|p: Path, a: Path| #[trigger]
            first_blocked(image, l, p, a) && e == ErrorView::new(
                ErrorCode::FileAsParent,
                "file '"@ + a + "' cannot serve as a parent directory of '"@ + p + "'"@,
            ).at(idx, p);
        assert(created_beneath_file(image, l, p, a));
    }
    if exists|p: Path, a: Path|
        {
            &&& #[trigger] created_beneath_file(image, l, p, a)
            &&& forall|q: Path, b: Path| #[trigger]
                created_beneath_file(image, l, q, b) && q != p ==> path_lt(p, q)
            &&& forall|b: Path| #[trigger]
                created_beneath_file(image, l, p, b) ==> a.len() <= b.len()
            &&& e.code == ErrorCode::FileAsParent
            &&& e.message == "file '"@ + a + "' cannot serve as a parent directory of '"@ + p
                + "'"@
            &&& e.layer == Some(idx)
            &&& e.path == Some(p)
        } {
        let (p, a) = choose|p: Path, a: Path|
            {
                &&& #[trigger] created_beneath_file(image, l, p, a)
                &&& forall|q: Path, b: Path| #[trigger]
                    created_beneath_file(image, l, q, b) && q != p ==> path_lt(p, q)
                &&& forall|b: Path| #[trigger]
                    created_beneath_file(image, l, p, b) ==> a.len() <= b.len()
                &&& e.code == ErrorCode::FileAsParent
                &&& e.message == "file '"@ + a + "' cannot serve as a parent directory of '"@ + p
                    + "'"@
                &&& e.layer == Some(idx)
                &&& e.path == Some(p)
            };
        assert(first_blocked(image, l, p, a));
    }
}

/// Of a layer that is otherwise in order, a path created beneath a file is
/// refused: the first one in path order, with the shortest such file, in these words.
pub proof fn law_parent_refused(image: Image, l: LayerView, idx: nat, e: ErrorView)
    requires
        coherent(l),
        forall|o: Path| !opaque_without_directory(image, l, o),
    ensures
        refusal(image, l, idx, e) <==> exists|p: Path, a: Path|
            {
                &&& #[trigger] created_beneath_file(image, l, p, a)
                &&& forall|q: Path, b: Path| #[trigger]
                    created_beneath_file(image, l, q, b) && q != p ==> path_lt(p, q)
                &&& forall|b: Path| #[trigger]
                    created_beneath_file(image, l, p, b) ==> a.len() <= b.len()
                &&& e.code == ErrorCode::FileAsParent
                &&& e.message == "file '"@ + a + "' cannot serve as a parent directory of '"@ + p
                    + "'"@
                &&& e.layer == Some(idx)
                &&& e.path == Some(p)
            },
{
    law_parent_words(image, l, idx, e);
    assert forall|o: Path| !bad_opaque(image, l, o) by {
        assert(!opaque_without_directory(image, l, o));
    }
}

} // verus!
