//! Applying a whole layer: whiteouts and opaque markers act on the lower image,
//! then the layer's own directories and files are created.
use vstd::prelude::*;
use crate::checks::{check_layer_conflicts, check_opaques, check_parents, lemma_push_above};
use crate::engine::{
    all_before, extends, file_above, lemma_appends_extends, lemma_extends_chain, lemma_extends_none,
    mkdir_log, subtree_log, whiteout_log, with_dir, with_file, write_log, Engine,
};
use crate::model::{
    above, acceptable, below, blocked, blocked_by, clash, cleared, coherent, hidden, hiding,
    is_topmost, layer_image, layer_log, logged_before, makes_dir, no_repeats, refusal, rooted,
    stage, topmost, whited_out, Image, Node,
};
use crate::path::{
    ascending, lemma_lt_asymmetric, lemma_lt_irreflexive, lemma_lt_transitive,
    lemma_non_descending_distinct, lemma_push_contains, lemma_under_chain, lemma_under_lt,
    lemma_under_transitive, path_lt, paths, slice_paths, sorted, under, Path,
};
use crate::types::{Kind, LayerInput, LayerView, MergeError, ObscuredView, Reason};

verus! {

// ---------------------------------------------------------------------------
// Lists in path order
// ---------------------------------------------------------------------------

/// The paths of a list without repetitions, in ascending order.
fn ordered<'a>(list: &'a Vec<String>) -> (r: Vec<&'a str>)
    requires
        paths(list@).no_duplicates(),
    ensures
        ascending(slice_paths(r@)),
        forall|p: Path| #[trigger] slice_paths(r@).contains(p) <==> paths(list@).contains(p),
{
    let r = sorted(list);
    proof {
        let s = paths(list@);
        let t = slice_paths(r@);
        s.lemma_multiset_has_no_duplicates();
        t.lemma_multiset_has_no_duplicates_conv();
        lemma_non_descending_distinct(t);
    }
    r
}

/// In an ascending list, what comes before an item is what precedes it.
proof fn lemma_earlier(s: Seq<Path>, k: int, a: Path)
    requires
        ascending(s),
        0 <= k < s.len(),
        s.contains(a),
        path_lt(a, s[k]),
    ensures
        s.take(k).contains(a),
{
    let j = choose|j: int| 0 <= j < s.len() && s[j] == a;
    if j >= k {
        if j > k {
            assert(path_lt(s[k], s[j]));
            lemma_lt_asymmetric(a, s[k]);
        } else {
            lemma_lt_irreflexive(a);
        }
    }
    assert(s.take(k)[j] == a);
}

/// What precedes an item of an ascending list is in the list, and not the item.
proof fn lemma_preceding(s: Seq<Path>, k: int, a: Path)
    requires
        ascending(s),
        0 <= k < s.len(),
        s.take(k).contains(a),
    ensures
        s.contains(a),
        a != s[k],
{
    let j = choose|j: int| 0 <= j < s.take(k).len() && s.take(k)[j] == a;
    assert(s[j] == a);
    assert(path_lt(s[j], s[k]));
    lemma_lt_irreflexive(a);
}

/// What one more path adds to what a list is above.
proof fn lemma_push_below(list: Seq<Path>, a: Path, p: Path)
    ensures
        below(list.push(a), p) <==> below(list, p) || under(p, a),
{
    if below(list, p) {
        let x = choose|x: Path| #[trigger] list.contains(x) && under(p, x);
        lemma_push_contains(list, a, x);
    }
    lemma_push_contains(list, a, a);
    if below(list.push(a), p) {
        let x = choose|x: Path| #[trigger] list.push(a).contains(x) && under(p, x);
        lemma_push_contains(list, a, x);
    }
}

/// Lists with the same paths are above and beneath the same paths.
pub proof fn lemma_same_paths(s: Seq<Path>, t: Seq<Path>, p: Path)
    requires
        forall|q: Path| #[trigger] s.contains(q) <==> t.contains(q),
    ensures
        below(s, p) <==> below(t, p),
        above(s, p) <==> above(t, p),
{
    if below(s, p) {
        let x = choose|x: Path| #[trigger] s.contains(x) && under(p, x);
        assert(t.contains(x));
    }
    if below(t, p) {
        let x = choose|x: Path| #[trigger] t.contains(x) && under(p, x);
        assert(s.contains(x));
    }
    if above(s, p) {
        let x = choose|x: Path| #[trigger] s.contains(x) && under(x, p);
        assert(t.contains(x));
    }
    if above(t, p) {
        let x = choose|x: Path| #[trigger] t.contains(x) && under(x, p);
        assert(s.contains(x));
    }
}

/// There is at most one topmost path.
pub proof fn lemma_topmost(list: Seq<Path>, p: Path, a: Path)
    requires
        is_topmost(list, p, a),
    ensures
        topmost(list, p) == a,
{
    let b = topmost(list, p);
    assert(is_topmost(list, p, b));
    lemma_under_chain(p, a, b);
}

/// A path beneath a list has a topmost ancestor in it.
pub proof fn lemma_topmost_exists(list: Seq<Path>, p: Path)
    requires
        below(list, p),
    ensures
        is_topmost(list, p, topmost(list, p)),
{
    let a = choose|a: Path| #[trigger] list.contains(a) && under(p, a);
    lemma_topmost_from(list, p, a);
}

/// From an ancestor in a list one gets to the topmost one.
proof fn lemma_topmost_from(list: Seq<Path>, p: Path, a: Path)
    requires
        list.contains(a),
        under(p, a),
    ensures
        is_topmost(list, p, topmost(list, p)),
    decreases a.len(),
{
    if is_topmost(list, p, a) {
        lemma_topmost(list, p, a);
    } else {
        let b = choose|b: Path| #[trigger]
            list.contains(b) && under(p, b) && b.len() < a.len();
        lemma_topmost_from(list, p, b);
    }
}

/// When an ascending list is worked through, the first path above `p` is the topmost.
proof fn lemma_first_is_topmost(list: Seq<Path>, s: Seq<Path>, k: int, p: Path)
    requires
        ascending(s),
        forall|q: Path| #[trigger] s.contains(q) <==> list.contains(q),
        0 <= k < s.len(),
        under(p, s[k]),
        !below(s.take(k), p),
    ensures
        topmost(list, p) == s[k],
{
    let a = s[k];
    assert(s.contains(a));
    assert forall|b: Path| #[trigger] list.contains(b) && under(p, b) implies a.len()
        <= b.len() by {
        if b.len() < a.len() {
            lemma_under_chain(p, b, a);
            lemma_under_lt(a, b);
            lemma_earlier(s, k, b);
            assert(s.take(k).contains(b));
        }
    }
    lemma_topmost(list, p, a);
}

/// Of a path that the first records of an ascending list cover, the topmost
/// record above it is among the first too.
proof fn lemma_topmost_done(list: Seq<Path>, s: Seq<Path>, k: int, p: Path)
    requires
        ascending(s),
        forall|q: Path| #[trigger] s.contains(q) <==> list.contains(q),
        0 <= k < s.len(),
        covered(s.take(k), p),
        below(list, p),
    ensures
        is_topmost(list, p, topmost(list, p)),
        path_lt(topmost(list, p), s[k]),
{
    lemma_topmost_exists(list, p);
    let t = topmost(list, p);
    let a = if s.take(k).contains(p) {
        p
    } else {
        choose|a: Path| #[trigger] s.take(k).contains(a) && under(p, a)
    };
    lemma_preceding(s, k, a);
    let j = choose|j: int| 0 <= j < s.take(k).len() && s.take(k)[j] == a;
    assert(path_lt(s[j], s[k]));
    if a == p {
        lemma_under_lt(p, t);
        lemma_lt_transitive(t, p, s[k]);
    } else if t != a {
        assert(list.contains(a));
        lemma_under_chain(p, t, a);
        lemma_under_lt(a, t);
        lemma_lt_transitive(t, a, s[k]);
    }
}

/// What precedes an item of an ascending list comes before it.
proof fn lemma_preceding_lt(s: Seq<Path>, k: int, a: Path)
    requires
        ascending(s),
        0 <= k < s.len(),
        s.take(k).contains(a),
    ensures
        path_lt(a, s[k]),
{
    let j = choose|j: int| 0 <= j < s.take(k).len() && s.take(k)[j] == a;
    assert(path_lt(s[j], s[k]));
}

/// `p` or one of its ancestors is in the list.
pub open spec fn covered(list: Seq<Path>, p: Path) -> bool {
    list.contains(p) || below(list, p)
}

// ---------------------------------------------------------------------------
// Whiteouts
// ---------------------------------------------------------------------------

/// `image` without the paths that satisfy `gone`.
pub open spec fn without(image: Image, gone: spec_fn(Path) -> bool) -> Image {
    image.remove_keys(Set::new(gone))
}

/// The log entries of a layer at the paths that satisfy `which`.
pub open spec fn partial_log(
    image: Image,
    layer: LayerView,
    idx: nat,
    which: spec_fn(Path) -> bool,
) -> Set<ObscuredView> {
    Set::new(|e: ObscuredView| hidden(image, layer, idx, e.path) == Some(e) && which(e.path))
}

/// One more whiteout.
proof fn lemma_whiteout_step(image: Image, layer: LayerView, idx: nat, s: Seq<Path>, k: int)
    requires
        ascending(s),
        forall|q: Path| #[trigger] s.contains(q) <==> layer.whiteouts.contains(q),
        0 <= k < s.len(),
    ensures
        ({
            let done = |p: Path| covered(s.take(k), p);
            let next = |p: Path| covered(s.take(k + 1), p);
            let cur = without(image, done);
            let more = whiteout_log(cur, s[k], idx);
            let logged = partial_log(image, layer, idx, done);
            &&& cur.remove_keys(Set::new(|p: Path| p == s[k] || under(p, s[k]))) == without(
                image,
                next,
            )
            &&& logged.union(more) == partial_log(image, layer, idx, next)
            &&& all_before(logged, more)
        }),
{
    let w = s[k];
    let done = |p: Path| covered(s.take(k), p);
    let next = |p: Path| covered(s.take(k + 1), p);
    let cur = without(image, done);
    let more = whiteout_log(cur, w, idx);
    let logged = partial_log(image, layer, idx, done);
    assert(s.take(k + 1) =~= s.take(k).push(w));
    assert forall|p: Path| #[trigger]
        covered(s.take(k + 1), p) <==> covered(s.take(k), p) || p == w || under(p, w) by {
        lemma_push_contains(s.take(k), w, p);
        lemma_push_below(s.take(k), w, p);
    }
    assert(cur.remove_keys(Set::new(|p: Path| p == w || under(p, w))) =~= without(image, next));
    assert forall|e: ObscuredView| logged.union(more).contains(e) <==> partial_log(
        image,
        layer,
        idx,
        next,
    ).contains(e) by {
        let p = e.path;
        if image.contains_key(p) && !done(p) && (p == w || under(p, w)) {
            lemma_whiteout_reason(image, layer, s, k, p);
        }
        if more.contains(e) {
            assert(cur.contains_key(p));
        }
    }
    assert(logged.union(more) =~= partial_log(image, layer, idx, next));
    assert forall|e: ObscuredView, f: ObscuredView| #[trigger]
        logged.contains(e) && #[trigger] more.contains(f) implies logged_before(e, f) by {
        let p = e.path;
        lemma_part(layer.whiteouts, s, k, p);
        if below(layer.whiteouts, p) {
            lemma_topmost_done(layer.whiteouts, s, k, p);
        } else {
            lemma_preceding_lt(s, k, p);
        }
        lemma_lt_irreflexive(w);
    }
}

/// Why a whiteout hides a path that the earlier ones have left.
proof fn lemma_whiteout_reason(image: Image, layer: LayerView, s: Seq<Path>, k: int, p: Path)
    requires
        ascending(s),
        forall|q: Path| #[trigger] s.contains(q) <==> layer.whiteouts.contains(q),
        0 <= k < s.len(),
        !covered(s.take(k), p),
        p == s[k] || under(p, s[k]),
    ensures
        hiding(image, layer, p) == if p == s[k] {
            Some((Reason::Whiteout, None))
        } else {
            Some((Reason::WhiteoutAncestor, Some(s[k])))
        },
{
    let w = s[k];
    assert(s.contains(w));
    if p == w {
        if below(layer.whiteouts, w) {
            let a = choose|a: Path| #[trigger] layer.whiteouts.contains(a) && under(w, a);
            assert(s.contains(a));
            lemma_under_lt(w, a);
            lemma_earlier(s, k, a);
            assert(below(s.take(k), w));
        }
    } else {
        lemma_first_is_topmost(layer.whiteouts, s, k, p);
        assert(layer.whiteouts.contains(w));
    }
}

impl Engine {
    /// Applies all whiteouts of a layer.
    fn apply_whiteouts(&mut self, idx: usize, layer: &LayerInput)
        requires
            old(self).inv(),
            no_repeats(layer@),
        ensures
            final(self).inv(),
            final(self).image() == without(old(self).image(), |p: Path| whited_out(layer@, p)),
            extends(
                old(self).log(),
                final(self).log(),
                partial_log(
                    old(self).image(),
                    layer@,
                    idx as nat,
                    |p: Path| whited_out(layer@, p),
                ),
            ),
    {
        let ghost image = self.image();
        let ghost log = self.log();
        let list = ordered(&layer.whiteouts);
        let ghost s = slice_paths(list@);
        let mut i: usize = 0;
        proof {
            assert(without(image, |p: Path| covered(s.take(0), p)) =~= image);
            lemma_extends_none(
                log,
                partial_log(image, layer@, idx as nat, |p: Path| covered(s.take(0), p)),
            );
        }
        while i < list.len()
            invariant
                i <= list.len(),
                s == slice_paths(list@),
                ascending(s),
                forall|q: Path| #[trigger] s.contains(q) <==> layer@.whiteouts.contains(q),
                self.inv(),
                self.image() == without(image, |p: Path| covered(s.take(i as int), p)),
                extends(
                    log,
                    self.log(),
                    partial_log(
                        image,
                        layer@,
                        idx as nat,
                        |p: Path| covered(s.take(i as int), p),
                    ),
                ),
            decreases list.len() - i,
        {
            let ghost cur = self.image();
            let ghost before = self.log();
            self.apply_whiteout(idx, list[i]);
            proof {
                assert(s[i as int] == list@[i as int]@);
                lemma_whiteout_step(image, layer@, idx as nat, s, i as int);
                lemma_extends_chain(
                    log,
                    before,
                    self.log(),
                    partial_log(
                        image,
                        layer@,
                        idx as nat,
                        |p: Path| covered(s.take(i as int), p),
                    ),
                    whiteout_log(cur, s[i as int], idx as nat),
                );
            }
            i += 1;
        }
        proof {
            assert(s.take(i as int) =~= s);
            let a = |p: Path| covered(s, p);
            let b = |p: Path| whited_out(layer@, p);
            assert forall|p: Path| #[trigger] covered(s, p) == whited_out(layer@, p) by {
                lemma_same_paths(s, layer@.whiteouts, p);
            }
            assert(without(image, a) =~= without(image, b));
            assert(partial_log(image, layer@, idx as nat, a) =~= partial_log(
                image,
                layer@,
                idx as nat,
                b,
            ));
        }
    }
}

// ---------------------------------------------------------------------------
// Opaque markers
// ---------------------------------------------------------------------------

/// One more opaque marker.
proof fn lemma_opaque_step(image: Image, layer: LayerView, idx: nat, s: Seq<Path>, k: int)
    requires
        forall|p: Path| #[trigger] image.contains_key(p) ==> !whited_out(layer, p),
        ascending(s),
        forall|q: Path| #[trigger] s.contains(q) <==> layer.opaques.contains(q),
        0 <= k < s.len(),
    ensures
        ({
            let done = |p: Path| below(s.take(k), p);
            let next = |p: Path| below(s.take(k + 1), p);
            let cur = without(image, done);
            let more = subtree_log(cur, s[k], Reason::OpaqueAncestor, idx);
            let logged = partial_log(image, layer, idx, done);
            &&& cur.remove_keys(Set::new(|p: Path| under(p, s[k]))) == without(image, next)
            &&& logged.union(more) == partial_log(image, layer, idx, next)
            &&& all_before(logged, more)
        }),
{
    let o = s[k];
    let done = |p: Path| below(s.take(k), p);
    let next = |p: Path| below(s.take(k + 1), p);
    let cur = without(image, done);
    let more = subtree_log(cur, o, Reason::OpaqueAncestor, idx);
    let logged = partial_log(image, layer, idx, done);
    assert(s.take(k + 1) =~= s.take(k).push(o));
    assert forall|p: Path| #[trigger]
        below(s.take(k + 1), p) <==> below(s.take(k), p) || under(p, o) by {
        lemma_push_below(s.take(k), o, p);
    }
    assert(cur.remove_keys(Set::new(|p: Path| under(p, o))) =~= without(image, next));
    assert forall|e: ObscuredView| logged.union(more).contains(e) <==> partial_log(
        image,
        layer,
        idx,
        next,
    ).contains(e) by {
        let p = e.path;
        if image.contains_key(p) && !done(p) && under(p, o) {
            lemma_first_is_topmost(layer.opaques, s, k, p);
            assert(s.contains(o));
            assert(layer.opaques.contains(o));
            assert(cleared(layer, p));
        }
        if more.contains(e) {
            assert(cur.contains_key(p));
        }
    }
    assert(logged.union(more) =~= partial_log(image, layer, idx, next));
    assert forall|e: ObscuredView, f: ObscuredView| #[trigger]
        logged.contains(e) && #[trigger] more.contains(f) implies logged_before(e, f) by {
        let p = e.path;
        lemma_part(layer.opaques, s, k, p);
        assert(image.contains_key(p));
        lemma_topmost_done(layer.opaques, s, k, p);
        lemma_lt_irreflexive(o);
    }
}

impl Engine {
    /// Applies all opaque markers of a layer, once its whiteouts have acted.
    fn apply_opaques(&mut self, idx: usize, layer: &LayerInput)
        requires
            old(self).inv(),
            no_repeats(layer@),
            forall|p: Path| #[trigger]
                old(self).image().contains_key(p) ==> !whited_out(layer@, p),
        ensures
            final(self).inv(),
            final(self).image() == without(old(self).image(), |p: Path| cleared(layer@, p)),
            extends(
                old(self).log(),
                final(self).log(),
                partial_log(
                    old(self).image(),
                    layer@,
                    idx as nat,
                    |p: Path| cleared(layer@, p),
                ),
            ),
    {
        let ghost image = self.image();
        let ghost log = self.log();
        let list = ordered(&layer.opaques);
        let ghost s = slice_paths(list@);
        let mut i: usize = 0;
        proof {
            assert(without(image, |p: Path| below(s.take(0), p)) =~= image);
            lemma_extends_none(
                log,
                partial_log(image, layer@, idx as nat, |p: Path| below(s.take(0), p)),
            );
        }
        while i < list.len()
            invariant
                i <= list.len(),
                s == slice_paths(list@),
                ascending(s),
                forall|q: Path| #[trigger] s.contains(q) <==> layer@.opaques.contains(q),
                forall|p: Path| #[trigger] image.contains_key(p) ==> !whited_out(layer@, p),
                self.inv(),
                self.image() == without(image, |p: Path| below(s.take(i as int), p)),
                extends(
                    log,
                    self.log(),
                    partial_log(
                        image,
                        layer@,
                        idx as nat,
                        |p: Path| below(s.take(i as int), p),
                    ),
                ),
            decreases list.len() - i,
        {
            let ghost cur = self.image();
            let ghost before = self.log();
            self.apply_opaque(idx, list[i]);
            proof {
                assert(s[i as int] == list@[i as int]@);
                lemma_opaque_step(image, layer@, idx as nat, s, i as int);
                lemma_appends_extends(
                    before,
                    self.log(),
                    cur,
                    s[i as int],
                    Reason::OpaqueAncestor,
                    idx as nat,
                );
                lemma_extends_chain(
                    log,
                    before,
                    self.log(),
                    partial_log(
                        image,
                        layer@,
                        idx as nat,
                        |p: Path| below(s.take(i as int), p),
                    ),
                    subtree_log(cur, s[i as int], Reason::OpaqueAncestor, idx as nat),
                );
            }
            i += 1;
        }
        proof {
            assert(s.take(i as int) =~= s);
            let a = |p: Path| below(s, p);
            let b = |p: Path| cleared(layer@, p);
            assert forall|p: Path| #[trigger] below(s, p) == cleared(layer@, p) by {
                lemma_same_paths(s, layer@.opaques, p);
            }
            assert(without(image, a) =~= without(image, b));
            assert(partial_log(image, layer@, idx as nat, a) =~= partial_log(
                image,
                layer@,
                idx as nat,
                b,
            ));
        }
    }
}

// ---------------------------------------------------------------------------
// Directories
// ---------------------------------------------------------------------------

/// `image` with the paths of `list` and their ancestors as directories. Files
/// make way only at the paths of the list.
pub open spec fn with_dirs(image: Image, list: Seq<Path>, idx: nat) -> Image {
    Map::new(
        |p: Path| image.contains_key(p) || list.contains(p) || above(list, p),
        |p: Path|
            if image.contains_key(p) && !(list.contains(p) && image[p].kind is File) {
                image[p]
            } else {
                Node { kind: Kind::Dir, source: idx }
            },
    )
}

/// Nothing is created beneath a file, unless the file makes way.
pub open spec fn dirs_fit(image: Image, layer: LayerView) -> bool {
    forall|p: Path, a: Path|
        (layer.mkdirs.contains(p) || layer.writes.contains(p)) && #[trigger] under(p, a)
            && image.contains_key(a) && image[a].kind is File ==> layer.mkdirs.contains(a)
}

/// The lower image holds nothing that the layer's whiteouts or opaque markers hide.
pub open spec fn swept(image: Image, layer: LayerView) -> bool {
    forall|p: Path| #[trigger]
        image.contains_key(p) ==> !whited_out(layer, p) && !cleared(layer, p)
}

/// A directory of the layer is not beneath one of its files.
pub proof fn lemma_no_dir_below_file(layer: LayerView, p: Path)
    requires
        coherent(layer),
        layer.mkdirs.contains(p) || above(layer.mkdirs, p) || layer.writes.contains(p) || above(
            layer.writes,
            p,
        ),
    ensures
        !below(layer.writes, p),
{
    if below(layer.writes, p) {
        let w = choose|w: Path| #[trigger] layer.writes.contains(w) && under(p, w);
        assert(!clash(layer, w));
        if layer.mkdirs.contains(p) {
            assert(above(layer.mkdirs, w));
        } else if layer.writes.contains(p) {
            assert(above(layer.writes, w));
        } else if above(layer.mkdirs, p) {
            let t = choose|t: Path| #[trigger] layer.mkdirs.contains(t) && under(t, p);
            lemma_under_transitive(t, p, w);
            assert(above(layer.mkdirs, w));
        } else {
            let t = choose|t: Path| #[trigger] layer.writes.contains(t) && under(t, p);
            lemma_under_transitive(t, p, w);
            assert(above(layer.writes, w));
        }
    }
}

/// One more directory.
proof fn lemma_mkdir_step(image: Image, layer: LayerView, idx: nat, s: Seq<Path>, k: int)
    requires
        coherent(layer),
        swept(image, layer),
        dirs_fit(image, layer),
        ascending(s),
        forall|q: Path| #[trigger] s.contains(q) <==> layer.mkdirs.contains(q),
        0 <= k < s.len(),
        rooted(with_dirs(image, s.take(k), idx)),
    ensures
        ({
            let done = |p: Path| s.take(k).contains(p);
            let next = |p: Path| s.take(k + 1).contains(p);
            let cur = with_dirs(image, s.take(k), idx);
            let more = mkdir_log(cur, s[k], idx);
            let logged = partial_log(image, layer, idx, done);
            &&& forall|a: Path| !file_above(cur, s[k], a)
            &&& with_dir(cur, s[k], idx) == with_dirs(image, s.take(k + 1), idx)
            &&& logged.union(more) == partial_log(image, layer, idx, next)
            &&& all_before(logged, more)
        }),
{
    let m = s[k];
    let list = s.take(k);
    let done = |p: Path| s.take(k).contains(p);
    let next = |p: Path| s.take(k + 1).contains(p);
    let cur = with_dirs(image, list, idx);
    let more = mkdir_log(cur, m, idx);
    let logged = partial_log(image, layer, idx, done);
    assert(s.contains(m));
    assert(layer.mkdirs.contains(m));
    assert(s.take(k + 1) =~= list.push(m));
    assert(!list.contains(m)) by {
        if list.contains(m) {
            lemma_preceding(s, k, m);
        }
    }
    assert forall|p: Path| #[trigger]
        s.take(k + 1).contains(p) <==> list.contains(p) || p == m by {
        lemma_push_contains(list, m, p);
    }
    assert forall|p: Path| #[trigger]
        above(s.take(k + 1), p) <==> above(list, p) || under(m, p) by {
        lemma_push_above(list, m, p);
    }
    assert forall|a: Path| !file_above(cur, m, a) by {
        if file_above(cur, m, a) {
            assert(image.contains_key(a) && image[a].kind is File);
            assert(layer.mkdirs.contains(a));
            lemma_under_lt(m, a);
            assert(s.contains(a));
            lemma_earlier(s, k, a);
        }
    }
    assert(!under(m, m));
    assert(with_dir(cur, m, idx) =~= with_dirs(image, s.take(k + 1), idx));
    lemma_no_dir_below_file(layer, m);
    assert(!clash(layer, m));
    assert forall|e: ObscuredView| logged.union(more).contains(e) <==> partial_log(
        image,
        layer,
        idx,
        next,
    ).contains(e) by {
        assert(image.contains_key(m) ==> !whited_out(layer, m) && !cleared(layer, m));
    }
    assert(logged.union(more) =~= partial_log(image, layer, idx, next));
    assert forall|e: ObscuredView, f: ObscuredView| #[trigger]
        logged.contains(e) && #[trigger] more.contains(f) implies logged_before(e, f) by {
        let p = e.path;
        lemma_part(layer.mkdirs, s, k, p);
        lemma_preceding_lt(s, k, p);
        lemma_mkdir_reason(image, layer, p);
    }
}

/// Why an explicit directory hides what is at its path.
proof fn lemma_mkdir_reason(image: Image, layer: LayerView, p: Path)
    requires
        coherent(layer),
        swept(image, layer),
        image.contains_key(p),
        layer.mkdirs.contains(p),
    ensures
        hiding(image, layer, p) == if image[p].kind is File {
            Some((Reason::ReplacedByDir, None::<Path>))
        } else {
            None
        },
{
    lemma_no_dir_below_file(layer, p);
    assert(!clash(layer, p));
}

impl Engine {
    /// Creates all explicit directories of a layer.
    fn apply_mkdirs(&mut self, idx: usize, layer: &LayerInput) -> (r: Result<(), MergeError>)
        requires
            old(self).inv(),
            coherent(layer@),
            swept(old(self).image(), layer@),
            dirs_fit(old(self).image(), layer@),
        ensures
            r is Ok,
            final(self).inv(),
            final(self).image() == with_dirs(old(self).image(), layer@.mkdirs, idx as nat),
            extends(
                old(self).log(),
                final(self).log(),
                partial_log(
                    old(self).image(),
                    layer@,
                    idx as nat,
                    |p: Path| layer@.mkdirs.contains(p),
                ),
            ),
    {
        let ghost image = self.image();
        let ghost log = self.log();
        let list = ordered(&layer.mkdirs);
        let ghost s = slice_paths(list@);
        let mut i: usize = 0;
        proof {
            assert(with_dirs(image, s.take(0), idx as nat) =~= image);
            lemma_extends_none(
                log,
                partial_log(image, layer@, idx as nat, |p: Path| s.take(0).contains(p)),
            );
        }
        while i < list.len()
            invariant
                i <= list.len(),
                s == slice_paths(list@),
                ascending(s),
                forall|q: Path| #[trigger] s.contains(q) <==> layer@.mkdirs.contains(q),
                coherent(layer@),
                swept(image, layer@),
                dirs_fit(image, layer@),
                self.inv(),
                self.image() == with_dirs(image, s.take(i as int), idx as nat),
                extends(
                    log,
                    self.log(),
                    partial_log(
                        image,
                        layer@,
                        idx as nat,
                        |p: Path| s.take(i as int).contains(p),
                    ),
                ),
            decreases list.len() - i,
        {
            let ghost cur = self.image();
            let ghost before = self.log();
            proof {
                assert(s[i as int] == list@[i as int]@);
                lemma_mkdir_step(image, layer@, idx as nat, s, i as int);
            }
            self.ensure_dir(idx, list[i])?;
            proof {
                lemma_extends_chain(
                    log,
                    before,
                    self.log(),
                    partial_log(
                        image,
                        layer@,
                        idx as nat,
                        |p: Path| s.take(i as int).contains(p),
                    ),
                    mkdir_log(cur, s[i as int], idx as nat),
                );
            }
            i += 1;
        }
        proof {
            assert(s.take(i as int) =~= s);
            assert forall|p: Path| #[trigger] above(s, p) == above(layer@.mkdirs, p) by {
                lemma_same_paths(s, layer@.mkdirs, p);
            }
            assert(with_dirs(image, s, idx as nat) =~= with_dirs(
                image,
                layer@.mkdirs,
                idx as nat,
            ));
            assert(partial_log(image, layer@, idx as nat, |p: Path| s.contains(p)) =~= partial_log(
                image,
                layer@,
                idx as nat,
                |p: Path| layer@.mkdirs.contains(p),
            ));
        }
        Ok(())
    }
}

// ---------------------------------------------------------------------------
// Files
// ---------------------------------------------------------------------------

/// `image` with the paths of `list` as files, nothing beneath them, and their
/// ancestors as directories.
pub open spec fn with_files(image: Image, list: Seq<Path>, idx: nat) -> Image {
    Map::new(
        |p: Path| list.contains(p) || above(list, p) || image.contains_key(p) && !below(list, p),
        |p: Path|
            if list.contains(p) {
                Node { kind: Kind::File, source: idx }
            } else if image.contains_key(p) {
                image[p]
            } else {
                Node { kind: Kind::Dir, source: idx }
            },
    )
}

/// No file of the image is above a file of the layer, and nothing at or
/// beneath a file of the layer is hidden for another reason.
pub open spec fn files_fit(image: Image, layer: LayerView) -> bool {
    &&& forall|p: Path, a: Path|
        layer.writes.contains(p) && #[trigger] under(p, a) && image.contains_key(a)
            ==> image[a].kind is Dir
    &&& forall|p: Path| #[trigger]
        image.contains_key(p) && covered(layer.writes, p) ==> !whited_out(layer, p) && !cleared(
            layer,
            p,
        )
}

/// The part of a list that is done covers less than the list.
proof fn lemma_part(list: Seq<Path>, s: Seq<Path>, k: int, p: Path)
    requires
        forall|q: Path| #[trigger] s.contains(q) <==> list.contains(q),
        0 <= k <= s.len(),
    ensures
        s.take(k).contains(p) ==> list.contains(p),
        below(s.take(k), p) ==> below(list, p),
        above(s.take(k), p) ==> above(list, p),
{
    assert forall|q: Path| #[trigger] s.take(k).contains(q) implies list.contains(q) by {
        let j = choose|j: int| 0 <= j < s.take(k).len() && s.take(k)[j] == q;
        assert(s[j] == q);
        assert(s.contains(q));
    }
    if below(s.take(k), p) {
        let x = choose|x: Path| #[trigger] s.take(k).contains(x) && under(p, x);
        assert(list.contains(x));
    }
    if above(s.take(k), p) {
        let x = choose|x: Path| #[trigger] s.take(k).contains(x) && under(x, p);
        assert(list.contains(x));
    }
}

/// Why a file of the layer hides what is at or beneath it.
proof fn lemma_write_reason(image: Image, layer: LayerView, w: Path, p: Path)
    requires
        coherent(layer),
        files_fit(image, layer),
        image.contains_key(p),
        layer.writes.contains(w),
        p == w || under(p, w),
    ensures
        covered(layer.writes, p),
        hiding(image, layer, p) == if p != w {
            Some((Reason::ReplacedAncestor, Some(w)))
        } else if image[p].kind is File {
            Some((Reason::Overwritten, None))
        } else {
            Some((Reason::ReplacedByFile, None))
        },
{
    if p != w {
        assert(below(layer.writes, p));
        if layer.writes.contains(p) {
            lemma_no_dir_below_file(layer, p);
        }
        assert forall|b: Path| #[trigger] layer.writes.contains(b) && under(p, b) implies w.len()
            <= b.len() by {
            if b.len() < w.len() {
                lemma_under_chain(p, b, w);
                assert(above(layer.writes, b));
                assert(clash(layer, b));
            }
        }
        lemma_topmost(layer.writes, p, w);
    }
}

/// One more file.
proof fn lemma_write_step(image: Image, layer: LayerView, idx: nat, s: Seq<Path>, k: int)
    requires
        coherent(layer),
        files_fit(image, layer),
        ascending(s),
        forall|q: Path| #[trigger] s.contains(q) <==> layer.writes.contains(q),
        0 <= k < s.len(),
    ensures
        ({
            let done = |p: Path| covered(s.take(k), p);
            let next = |p: Path| covered(s.take(k + 1), p);
            let cur = with_files(image, s.take(k), idx);
            let more = write_log(cur, s[k], idx);
            let logged = partial_log(image, layer, idx, done);
            &&& forall|a: Path| !file_above(cur, s[k], a)
            &&& with_file(cur, s[k], idx) == with_files(image, s.take(k + 1), idx)
            &&& logged.union(more) == partial_log(image, layer, idx, next)
            &&& all_before(logged, more)
        }),
{
    let w = s[k];
    let list = s.take(k);
    let done = |p: Path| covered(s.take(k), p);
    let next = |p: Path| covered(s.take(k + 1), p);
    let cur = with_files(image, list, idx);
    let more = write_log(cur, w, idx);
    let logged = partial_log(image, layer, idx, done);
    assert(s.contains(w));
    assert(layer.writes.contains(w));
    assert(s.take(k + 1) =~= list.push(w));
    assert(!list.contains(w)) by {
        if list.contains(w) {
            lemma_preceding(s, k, w);
        }
    }
    assert forall|p: Path|
        #![trigger list.contains(p)]
        #![trigger list.push(w).contains(p)]
        #![trigger above(list, p)]
        #![trigger below(list, p)]
        #![trigger under(p, w)]
        #![trigger under(w, p)]
        {
            &&& list.push(w).contains(p) <==> list.contains(p) || p == w
            &&& below(list.push(w), p) <==> below(list, p) || under(p, w)
            &&& above(list.push(w), p) <==> above(list, p) || under(w, p)
            &&& (list.contains(p) || p == w || above(list, p) || under(w, p)) ==> !below(list, p)
                && !under(p, w)
            &&& !(list.contains(p) && under(w, p))
            &&& !(p == w && above(list, p))
        } by {
        lemma_push_contains(list, w, p);
        lemma_push_below(list, w, p);
        lemma_push_above(list, w, p);
        lemma_part(layer.writes, s, k, p);
        if under(w, p) {
            assert(above(layer.writes, p));
        }
        if list.contains(p) || p == w || above(list, p) || under(w, p) {
            lemma_no_dir_below_file(layer, p);
            if under(p, w) {
                assert(below(layer.writes, p));
            }
        }
        if list.contains(p) && under(w, p) {
            assert(clash(layer, p));
        }
        if p == w && above(list, p) {
            assert(clash(layer, w));
        }
    }
    assert forall|a: Path| !file_above(cur, w, a) by {
        if file_above(cur, w, a) {
            assert(!list.contains(a));
        }
    }
    assert(with_file(cur, w, idx) =~= with_files(image, list.push(w), idx));
    assert forall|e: ObscuredView| logged.union(more).contains(e) <==> partial_log(
        image,
        layer,
        idx,
        next,
    ).contains(e) by {
        let p = e.path;
        if p == w || under(p, w) {
            assert(!list.contains(p) && !above(list, p));
            if image.contains_key(p) {
                lemma_write_reason(image, layer, w, p);
            }
            if below(list, p) {
                assert(p != w);
            }
        }
        if more.contains(e) {
            assert(cur.contains_key(p));
        }
    }
    assert(logged.union(more) =~= partial_log(image, layer, idx, next));
    assert forall|e: ObscuredView, f: ObscuredView| #[trigger]
        logged.contains(e) && #[trigger] more.contains(f) implies logged_before(e, f) by {
        let p = e.path;
        let a = if list.contains(p) {
            p
        } else {
            choose|a: Path| #[trigger] list.contains(a) && under(p, a)
        };
        lemma_part(layer.writes, s, k, a);
        lemma_preceding_lt(s, k, a);
        lemma_write_reason(image, layer, a, p);
        lemma_lt_irreflexive(w);
    }
}

impl Engine {
    /// Writes all files of a layer.
    fn apply_writes(&mut self, idx: usize, layer: &LayerInput) -> (r: Result<(), MergeError>)
        requires
            old(self).inv(),
            coherent(layer@),
            files_fit(old(self).image(), layer@),
        ensures
            r is Ok,
            final(self).inv(),
            final(self).image() == with_files(old(self).image(), layer@.writes, idx as nat),
            extends(
                old(self).log(),
                final(self).log(),
                partial_log(
                    old(self).image(),
                    layer@,
                    idx as nat,
                    |p: Path| covered(layer@.writes, p),
                ),
            ),
    {
        let ghost image = self.image();
        let ghost log = self.log();
        let list = ordered(&layer.writes);
        let ghost s = slice_paths(list@);
        let mut i: usize = 0;
        proof {
            assert(with_files(image, s.take(0), idx as nat) =~= image);
            lemma_extends_none(
                log,
                partial_log(image, layer@, idx as nat, |p: Path| covered(s.take(0), p)),
            );
        }
        while i < list.len()
            invariant
                i <= list.len(),
                s == slice_paths(list@),
                ascending(s),
                forall|q: Path| #[trigger] s.contains(q) <==> layer@.writes.contains(q),
                coherent(layer@),
                files_fit(image, layer@),
                self.inv(),
                self.image() == with_files(image, s.take(i as int), idx as nat),
                extends(
                    log,
                    self.log(),
                    partial_log(
                        image,
                        layer@,
                        idx as nat,
                        |p: Path| covered(s.take(i as int), p),
                    ),
                ),
            decreases list.len() - i,
        {
            let ghost cur = self.image();
            let ghost before = self.log();
            proof {
                assert(s[i as int] == list@[i as int]@);
                lemma_write_step(image, layer@, idx as nat, s, i as int);
            }
            self.write_file(idx, list[i])?;
            proof {
                lemma_extends_chain(
                    log,
                    before,
                    self.log(),
                    partial_log(
                        image,
                        layer@,
                        idx as nat,
                        |p: Path| covered(s.take(i as int), p),
                    ),
                    write_log(cur, s[i as int], idx as nat),
                );
            }
            i += 1;
        }
        proof {
            assert(s.take(i as int) =~= s);
            let a = |p: Path| covered(s, p);
            let b = |p: Path| covered(layer@.writes, p);
            assert forall|p: Path|
                #![trigger above(s, p)]
                #![trigger below(s, p)]
                above(s, p) == above(layer@.writes, p) && below(s, p) == below(
                    layer@.writes,
                    p,
                ) by {
                lemma_same_paths(s, layer@.writes, p);
            }
            assert(with_files(image, s, idx as nat) =~= with_files(
                image,
                layer@.writes,
                idx as nat,
            ));
            assert(partial_log(image, layer@, idx as nat, a) =~= partial_log(
                image,
                layer@,
                idx as nat,
                b,
            ));
        }
        Ok(())
    }
}

// ---------------------------------------------------------------------------
// The layer as a whole
// ---------------------------------------------------------------------------

/// The image once the whiteouts and opaque markers of the layer have acted.
pub open spec fn swept_image(image: Image, layer: LayerView) -> Image {
    without(
        without(image, |p: Path| whited_out(layer, p)),
        |p: Path| cleared(layer, p),
    )
}

/// The four steps of an acceptable layer meet each other's demands and add up
/// to the image of the layer.
proof fn lemma_steps(image: Image, layer: LayerView, idx: nat)
    requires
        acceptable(image, layer),
    ensures
        ({
            let low = swept_image(image, layer);
            let dirs = with_dirs(low, layer.mkdirs, idx);
            &&& swept(low, layer)
            &&& dirs_fit(low, layer)
            &&& files_fit(dirs, layer)
            &&& with_files(dirs, layer.writes, idx) == layer_image(image, layer, idx)
        }),
{
    let low = swept_image(image, layer);
    let dirs = with_dirs(low, layer.mkdirs, idx);
    assert forall|p: Path, a: Path|
        (layer.mkdirs.contains(p) || layer.writes.contains(p)) && #[trigger] under(p, a)
            && low.contains_key(a) && low[a].kind is File implies layer.mkdirs.contains(a) by {
        if !layer.mkdirs.contains(a) {
            assert(blocked_by(image, layer, p, a));
            assert(blocked(image, layer, p));
        }
    }
    assert forall|p: Path| #[trigger] covered(layer.writes, p) implies !layer.mkdirs.contains(p)
        && !above(layer.mkdirs, p) by {
        if layer.mkdirs.contains(p) || above(layer.mkdirs, p) {
            lemma_no_dir_below_file(layer, p);
            assert(clash(layer, p));
        }
    }
    assert forall|p: Path| #[trigger] makes_dir(layer, p) implies !below(layer.writes, p) by {
        lemma_no_dir_below_file(layer, p);
    }
    let all = with_files(dirs, layer.writes, idx);
    assert forall|p: Path| all.contains_key(p) implies #[trigger] all[p] == layer_image(
        image,
        layer,
        idx,
    )[p] by {
        if makes_dir(layer, p) && low.contains_key(p) && low[p].kind is File
            && !layer.mkdirs.contains(p) {
            if above(layer.mkdirs, p) {
                let t = choose|t: Path| #[trigger] layer.mkdirs.contains(t) && under(t, p);
                assert(layer.mkdirs.contains(p));
            } else {
                let t = choose|t: Path| #[trigger] layer.writes.contains(t) && under(t, p);
                assert(layer.mkdirs.contains(p));
            }
        }
    }
    assert(all =~= layer_image(image, layer, idx));
}

/// The four logs of an acceptable layer are apart, and add up to its log.
proof fn lemma_logs(image: Image, layer: LayerView, idx: nat)
    requires
        acceptable(image, layer),
    ensures
        ({
            let first = without(image, |p: Path| whited_out(layer, p));
            let low = swept_image(image, layer);
            let dirs = with_dirs(low, layer.mkdirs, idx);
            let a = partial_log(image, layer, idx, |p: Path| whited_out(layer, p));
            let b = partial_log(first, layer, idx, |p: Path| cleared(layer, p));
            let c = partial_log(low, layer, idx, |p: Path| layer.mkdirs.contains(p));
            let d = partial_log(dirs, layer, idx, |p: Path| covered(layer.writes, p));
            &&& a.union(b).union(c).union(d) == layer_log(image, layer, idx)
            &&& all_before(a, b)
            &&& all_before(a.union(b), c)
            &&& all_before(a.union(b).union(c), d)
        }),
{
    let first = without(image, |p: Path| whited_out(layer, p));
    let low = swept_image(image, layer);
    let dirs = with_dirs(low, layer.mkdirs, idx);
    assert forall|p: Path| #[trigger] covered(layer.writes, p) implies !layer.mkdirs.contains(p)
        && dirs.contains_key(p) == low.contains_key(p) && (low.contains_key(p) ==> dirs[p]
        == low[p]) by {
        if layer.mkdirs.contains(p) || above(layer.mkdirs, p) {
            lemma_no_dir_below_file(layer, p);
            assert(clash(layer, p));
        }
    }
    let a = partial_log(image, layer, idx, |p: Path| whited_out(layer, p));
    let b = partial_log(first, layer, idx, |p: Path| cleared(layer, p));
    let c = partial_log(low, layer, idx, |p: Path| layer.mkdirs.contains(p));
    let d = partial_log(dirs, layer, idx, |p: Path| covered(layer.writes, p));
    assert forall|e: ObscuredView|
        a.union(b).union(c).union(d).contains(e) <==> layer_log(image, layer, idx).contains(
            e,
        ) by {
        let w = covered(layer.writes, e.path);
    }
    assert(a.union(b).union(c).union(d) =~= layer_log(image, layer, idx));
    lemma_steps(image, layer, idx);
    assert forall|e: ObscuredView| #[trigger] a.contains(e) implies e.by_layer == idx && stage(
        e.reason,
    ) == 0 by {}
    assert forall|e: ObscuredView| #[trigger] b.contains(e) implies e.by_layer == idx && stage(
        e.reason,
    ) == 1 by {}
    assert forall|e: ObscuredView| #[trigger] c.contains(e) implies e.by_layer == idx && stage(
        e.reason,
    ) == 2 by {
        lemma_mkdir_reason(low, layer, e.path);
    }
    assert forall|e: ObscuredView| #[trigger] d.contains(e) implies e.by_layer == idx && stage(
        e.reason,
    ) == 3 by {
        let w = if layer.writes.contains(e.path) {
            e.path
        } else {
            choose|w: Path| #[trigger] layer.writes.contains(w) && under(e.path, w)
        };
        lemma_write_reason(dirs, layer, w, e.path);
    }
    assert forall|e: ObscuredView| #[trigger] a.union(b).contains(e) implies e.by_layer == idx
        && stage(e.reason) <= 1 by {
        assert(a.contains(e) || b.contains(e));
    }
    assert forall|e: ObscuredView| #[trigger]
        a.union(b).union(c).contains(e) implies e.by_layer == idx && stage(e.reason) <= 2 by {
        assert(a.union(b).contains(e) || c.contains(e));
    }
}

impl Engine {
    /// Applies one layer, or refuses it and changes nothing. What the layer hides is
    /// logged step by step: by its whiteouts in path order, then by its opaque markers, its
    /// directories and its files.
    pub fn apply_layer(&mut self, idx: usize, layer: &LayerInput) -> (r: Result<
        (),
        MergeError,
    >)
        requires
            old(self).inv(),
        ensures
            final(self).inv(),
            r is Ok <==> acceptable(old(self).image(), layer@),
            r is Ok ==> final(self).image() == layer_image(
                old(self).image(),
                layer@,
                idx as nat,
            ),
            r is Ok ==> extends(
                old(self).log(),
                final(self).log(),
                layer_log(old(self).image(), layer@, idx as nat),
            ),
            r is Err ==> *final(self) == *old(self),
            r is Err ==> refusal(old(self).image(), layer@, idx as nat, r->Err_0@),
    {
        let ghost image = self.image();
        let ghost log = self.log();
        let ghost n = idx as nat;
        check_layer_conflicts(idx, layer)?;
        check_opaques(&self.map, idx, layer)?;
        check_parents(&self.map, idx, layer)?;
        proof {
            lemma_steps(image, layer@, n);
            lemma_logs(image, layer@, n);
        }
        let ghost a = partial_log(image, layer@, n, |p: Path| whited_out(layer@, p));
        let ghost first = without(image, |p: Path| whited_out(layer@, p));
        let ghost b = partial_log(first, layer@, n, |p: Path| cleared(layer@, p));
        let ghost low = swept_image(image, layer@);
        let ghost c = partial_log(low, layer@, n, |p: Path| layer@.mkdirs.contains(p));
        let ghost dirs = with_dirs(low, layer@.mkdirs, n);
        let ghost d = partial_log(dirs, layer@, n, |p: Path| covered(layer@.writes, p));
        // Whiteouts and opaque markers act on the lower image.
        self.apply_whiteouts(idx, layer);
        let ghost log_a = self.log();
        self.apply_opaques(idx, layer);
        let ghost log_b = self.log();
        // Then the layer's own content is written.
        self.apply_mkdirs(idx, layer)?;
        let ghost log_c = self.log();
        self.apply_writes(idx, layer)?;
        proof {
            lemma_extends_chain(log, log_a, log_b, a, b);
            lemma_extends_chain(log, log_b, log_c, a.union(b), c);
            lemma_extends_chain(log, log_c, self.log(), a.union(b).union(c), d);
        }
        Ok(())
    }
}

} // verus!
