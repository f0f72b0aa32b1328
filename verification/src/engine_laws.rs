//! What one layer, and one record of a layer, does to any image and any log, path
//! by path and entry by entry.
use vstd::prelude::*;
use crate::apply::lemma_topmost_exists;
use crate::catalog::Entry;
use crate::engine::{
    appends_in_order, event_paths, extends, file_above, internal_error, log_with_dir, mkdir_log,
    record, subtree_log, whiteout_log, with_dir, with_file, with_parents, write_log, write_reason,
    Engine,
};
use crate::model::{
    below, chronological, layer_image, layer_log, logged_before, makes_dir, rooted, whited_out,
    Image, Node,
};
use crate::path::{ascending, path_lt, under, Path};
use crate::types::{ErrorCode, Kind, LayerView, ObscuredView, Reason};

verus! {

// ---------------------------------------------------------------------------
// One layer
// ---------------------------------------------------------------------------

/// What a layer deletes and what it makes a directory.
pub proof fn law_touched(l: LayerView, p: Path)
    ensures
        whited_out(l, p) <==> exists|w: Path| #[trigger]
            l.whiteouts.contains(w) && (p == w || under(p, w)),
        makes_dir(l, p) <==> {
            ||| l.mkdirs.contains(p)
            ||| exists|t: Path| #[trigger] l.mkdirs.contains(t) && under(t, p)
            ||| exists|t: Path| #[trigger] l.writes.contains(t) && under(t, p)
        },
{
}

/// What stands at a path once a layer has been applied to an image: a file of the
/// layer where it writes, the directory from below or one of the layer's where it makes a
/// directory, and otherwise what was there, unless it is deleted or something is written
/// above it.
pub proof fn law_layer_image(image: Image, l: LayerView, idx: nat, p: Path)
    ensures
        ({
            let after = layer_image(image, l, idx);
            let made = {
                ||| l.mkdirs.contains(p)
                ||| exists|t: Path| #[trigger] l.mkdirs.contains(t) && under(t, p)
                ||| exists|t: Path| #[trigger] l.writes.contains(t) && under(t, p)
            };
            let spared = {
                &&& image.contains_key(p)
                &&& !l.whiteouts.contains(p)
                &&& forall|w: Path| #[trigger] l.whiteouts.contains(w) ==> !under(p, w)
                &&& forall|o: Path| #[trigger] l.opaques.contains(o) ==> !under(p, o)
            };
            let covered = exists|w: Path| #[trigger] l.writes.contains(w) && under(p, w);
            &&& l.writes.contains(p) ==> after.contains_key(p) && after[p].kind == Kind::File
                && after[p].source == idx
            &&& !l.writes.contains(p) && made ==> {
                &&& after.contains_key(p)
                &&& after[p].kind == Kind::Dir
                &&& spared && image[p].kind == Kind::Dir ==> after[p].source == image[p].source
                &&& !spared || image[p].kind == Kind::File ==> after[p].source == idx
            }
            &&& !l.writes.contains(p) && !made ==> {
                &&& after.contains_key(p) <==> spared && !covered
                &&& after.contains_key(p) ==> after[p].kind == image[p].kind && after[p].source
                    == image[p].source
            }
        }),
{
}

/// `a` is in the list and above `p`, and no shorter path is.
pub open spec fn shortest_above(list: Seq<Path>, p: Path, a: Path) -> bool {
    &&& list.contains(a)
    &&& under(p, a)
    &&& forall|b: Path| #[trigger] list.contains(b) && under(p, b) ==> a.len() <= b.len()
}

/// The log of a layer holds an entry for a path that was there, with its source
/// and the number of the layer, for one reason: the first that applies of a whiteout above
/// it, a whiteout of it, an opaque marker above it, a file written there, a file written
/// above it, and a directory made of a file.
pub proof fn law_layer_log(image: Image, l: LayerView, idx: nat, e: ObscuredView)
    ensures
        layer_log(image, l, idx).contains(e) <==> {
            let p = e.path;
            let under_whiteout = exists|w: Path| #[trigger] l.whiteouts.contains(w) && under(p, w);
            let under_opaque = exists|o: Path| #[trigger] l.opaques.contains(o) && under(p, o);
            let under_write = exists|w: Path| #[trigger] l.writes.contains(w) && under(p, w);
            let spared = !under_whiteout && !l.whiteouts.contains(p) && !under_opaque;
            &&& image.contains_key(p)
            &&& e.source_layer == image[p].source
            &&& e.by_layer == idx
            &&& match e.reason {
                Reason::WhiteoutAncestor => under_whiteout && e.via is Some && shortest_above(
                    l.whiteouts,
                    p,
                    e.via->0,
                ),
                Reason::Whiteout => !under_whiteout && l.whiteouts.contains(p) && e.via is None,
                Reason::OpaqueAncestor => !under_whiteout && !l.whiteouts.contains(p)
                    && under_opaque && e.via is Some && shortest_above(l.opaques, p, e.via->0),
                Reason::Overwritten => spared && l.writes.contains(p) && image[p].kind
                    == Kind::File && e.via is None,
                Reason::ReplacedByFile => spared && l.writes.contains(p) && image[p].kind
                    == Kind::Dir && e.via is None,
                Reason::ReplacedAncestor => spared && !l.writes.contains(p) && under_write
                    && e.via is Some && shortest_above(l.writes, p, e.via->0),
                Reason::ReplacedByDir => spared && !l.writes.contains(p) && !under_write
                    && l.mkdirs.contains(p) && image[p].kind == Kind::File && e.via is None,
            }
        },
{
    let p = e.path;
    if below(l.whiteouts, p) {
        lemma_shortest(l.whiteouts, p, e.via->0);
    }
    if below(l.opaques, p) {
        lemma_shortest(l.opaques, p, e.via->0);
    }
    if below(l.writes, p) {
        lemma_shortest(l.writes, p, e.via->0);
    }
}

/// One path of a list is the shortest above another.
proof fn lemma_shortest(list: Seq<Path>, p: Path, a: Path)
    requires
        below(list, p),
    ensures
        shortest_above(list, p, crate::model::topmost(list, p)),
        shortest_above(list, p, a) <==> a == crate::model::topmost(list, p),
{
    lemma_topmost_exists(list, p);
    if shortest_above(list, p, a) {
        crate::apply::lemma_topmost(list, p, a);
    }
}

/// An image is rooted where what lies above a live path is a live directory.
pub proof fn law_rooted_image(image: Image)
    ensures
        rooted(image) <==> forall|p: Path, a: Path|
            image.contains_key(p) && #[trigger] under(p, a) ==> image.contains_key(a)
                && image[a].kind == Kind::Dir,
{
}

/// The state of a merge is its live paths and its log, entry for entry.
pub proof fn law_engine(e: Engine)
    ensures
        e.image() == e.map@,
        e.log().len() == e.events@.len(),
        forall|i: int| 0 <= i < e.events@.len() ==> #[trigger] e.log()[i] == e.events@[i]@,
        e.inv() <==> e.map.inv() && forall|p: Path, a: Path|
            e.map@.contains_key(p) && #[trigger] under(p, a) ==> e.map@.contains_key(a)
                && e.map@[a].kind == Kind::Dir,
{
}

/// The view of an entry has its kind and its layer.
pub proof fn law_entry_view(x: Entry)
    ensures
        x@.kind == x.kind,
        x@.source == x.source,
{
}

// ---------------------------------------------------------------------------
// The order of the log
// ---------------------------------------------------------------------------

/// Which of two entries is logged first: that of the lower layer; within a layer,
/// those of whiteouts, then of opaque markers, then of directories, then of files; among
/// these, by the record that acted, in path order; and then by path.
pub proof fn law_logged_before(a: ObscuredView, b: ObscuredView)
    ensures
        ({
            let ca = if a.via is Some {
                a.via->0
            } else {
                a.path
            };
            let cb = if b.via is Some {
                b.via->0
            } else {
                b.path
            };
            let white_a = a.reason == Reason::Whiteout || a.reason == Reason::WhiteoutAncestor;
            let white_b = b.reason == Reason::Whiteout || b.reason == Reason::WhiteoutAncestor;
            let opaque_a = a.reason == Reason::OpaqueAncestor;
            let opaque_b = b.reason == Reason::OpaqueAncestor;
            let dir_a = a.reason == Reason::ReplacedByDir;
            let dir_b = b.reason == Reason::ReplacedByDir;
            let file_a = a.reason == Reason::Overwritten || a.reason == Reason::ReplacedByFile
                || a.reason == Reason::ReplacedAncestor;
            let file_b = b.reason == Reason::Overwritten || b.reason == Reason::ReplacedByFile
                || b.reason == Reason::ReplacedAncestor;
            let together = white_a && white_b || opaque_a && opaque_b || dir_a && dir_b || file_a
                && file_b;
            logged_before(a, b) <==> {
                ||| a.by_layer < b.by_layer
                ||| a.by_layer == b.by_layer && white_a && !white_b
                ||| a.by_layer == b.by_layer && opaque_a && (dir_b || file_b)
                ||| a.by_layer == b.by_layer && dir_a && file_b
                ||| a.by_layer == b.by_layer && together && ca != cb && path_lt(ca, cb)
                ||| a.by_layer == b.by_layer && together && ca == cb && path_lt(a.path, b.path)
            }
        }),
{
}

/// Entries are in the order in which they are logged where each is logged before
/// all that follow.
pub proof fn law_chronological(s: Seq<ObscuredView>, i: int, j: int)
    requires
        chronological(s),
        0 <= i < j < s.len(),
    ensures
        logged_before(s[i], s[j]),
        s[i] != s[j],
{
    assert(logged_before(s[i], s[j]));
    crate::path::lemma_lt_irreflexive(s[i].path);
}

/// A log that is extended keeps its entries in place, and behind them stand the
/// added ones, each once, in the order in which they are logged.
pub proof fn law_extends(
    before: Seq<ObscuredView>,
    after: Seq<ObscuredView>,
    added: Set<ObscuredView>,
)
    requires
        extends(before, after, added),
    ensures
        before.len() <= after.len(),
        forall|i: int| 0 <= i < before.len() ==> #[trigger] after[i] == before[i],
        forall|i: int, j: int|
            before.len() <= i < j < after.len() ==> logged_before(
                #[trigger] after[i],
                #[trigger] after[j],
            ),
        forall|i: int|
            before.len() <= i < after.len() ==> added.contains(#[trigger] after[i]),
        forall|e: ObscuredView| #[trigger]
            added.contains(e) ==> exists|i: int|
                before.len() <= i < after.len() && #[trigger] after[i] == e,
{
    let n = before.len() as int;
    let tail = after.skip(n);
    assert forall|i: int| 0 <= i < before.len() implies #[trigger] after[i] == before[i] by {
        assert(after.take(n)[i] == after[i]);
    }
    assert forall|i: int, j: int| n <= i < j < after.len() implies logged_before(
        #[trigger] after[i],
        #[trigger] after[j],
    ) by {
        assert(logged_before(tail[i - n], tail[j - n]));
    }
    assert forall|i: int| n <= i < after.len() implies added.contains(#[trigger] after[i]) by {
        assert(tail[i - n] == after[i]);
        assert(tail.contains(after[i]));
    }
    assert forall|e: ObscuredView| #[trigger] added.contains(e) implies exists|i: int|
        n <= i < after.len() && #[trigger] after[i] == e by {
        assert(tail.contains(e));
        let k = choose|k: int| 0 <= k < tail.len() && tail[k] == e;
        assert(after[k + n] == e);
    }
}

/// A log to which entries are appended in order keeps its entries in place, and
/// behind them stand the added ones in path order.
pub proof fn law_appends(
    before: Seq<ObscuredView>,
    after: Seq<ObscuredView>,
    added: Set<ObscuredView>,
)
    requires
        appends_in_order(before, after, added),
    ensures
        before.len() <= after.len(),
        forall|i: int| 0 <= i < before.len() ==> #[trigger] after[i] == before[i],
        forall|i: int, j: int|
            before.len() <= i < j < after.len() ==> path_lt(
                (#[trigger] after[i]).path,
                (#[trigger] after[j]).path,
            ),
        forall|i: int|
            before.len() <= i < after.len() ==> added.contains(#[trigger] after[i]),
        forall|e: ObscuredView| #[trigger]
            added.contains(e) ==> exists|i: int|
                before.len() <= i < after.len() && #[trigger] after[i] == e,
{
    let n = before.len() as int;
    let s = choose|s: Seq<ObscuredView>|
        {
            &&& after == #[trigger] (before + s)
            &&& ascending(event_paths(s))
            &&& forall|e: ObscuredView| s.contains(e) <==> added.contains(e)
        };
    let ps = event_paths(s);
    assert forall|i: int, j: int| n <= i < j < after.len() implies path_lt(
        (#[trigger] after[i]).path,
        (#[trigger] after[j]).path,
    ) by {
        assert(ps[i - n] == after[i].path);
        assert(ps[j - n] == after[j].path);
    }
    assert forall|i: int| n <= i < after.len() implies added.contains(#[trigger] after[i]) by {
        assert(s[i - n] == after[i]);
        assert(s.contains(after[i]));
    }
    assert forall|e: ObscuredView| #[trigger] added.contains(e) implies exists|i: int|
        n <= i < after.len() && #[trigger] after[i] == e by {
        assert(s.contains(e));
        let k = choose|k: int| 0 <= k < s.len() && s[k] == e;
        assert(after[k + n] == e);
    }
}

// ---------------------------------------------------------------------------
// One record
// ---------------------------------------------------------------------------

/// An entry says which path was hidden, where it came from, why, by which layer
/// and through which record.
pub proof fn law_record(image: Image, p: Path, reason: Reason, by: nat, via: Option<Path>)
    ensures
        record(image, p, reason, by, via).path == p,
        record(image, p, reason, by, via).source_layer == image[p].source,
        record(image, p, reason, by, via).reason == reason,
        record(image, p, reason, by, via).by_layer == by,
        record(image, p, reason, by, via).via == via,
{
}

/// Hiding what lies beneath a path logs each live path there, once, through it.
pub proof fn law_subtree_log(image: Image, a: Path, reason: Reason, by: nat, e: ObscuredView)
    ensures
        subtree_log(image, a, reason, by).contains(e) <==> {
            &&& image.contains_key(e.path)
            &&& exists|rest: Seq<char>| e.path == #[trigger] (a + seq!['/'] + rest)
            &&& e.source_layer == image[e.path].source
            &&& e.reason == reason
            &&& e.by_layer == by
            &&& e.via == Some(a)
        },
{
    crate::path::law_under(e.path, a);
}

/// A whiteout logs the path that it names, if it is live, and every live path
/// beneath it.
pub proof fn law_whiteout_log(image: Image, w: Path, by: nat, e: ObscuredView)
    ensures
        whiteout_log(image, w, by).contains(e) <==> {
            &&& image.contains_key(e.path)
            &&& e.source_layer == image[e.path].source
            &&& e.by_layer == by
            &&& {
                ||| e.path == w && e.reason == Reason::Whiteout && e.via is None
                ||| under(e.path, w) && e.reason == Reason::WhiteoutAncestor && e.via == Some(w)
            }
        },
{
}

/// A file write logs the path that it names, if it is live, as overwritten where
/// a file stood there and as replaced where a directory did, and every live path beneath
/// it.
pub proof fn law_write_log(image: Image, w: Path, by: nat, e: ObscuredView)
    ensures
        write_log(image, w, by).contains(e) <==> {
            &&& image.contains_key(e.path)
            &&& e.source_layer == image[e.path].source
            &&& e.by_layer == by
            &&& {
                ||| e.path == w && image[w].kind == Kind::File && e.reason == Reason::Overwritten
                    && e.via is None
                ||| e.path == w && image[w].kind == Kind::Dir && e.reason == Reason::ReplacedByFile
                    && e.via is None
                ||| under(e.path, w) && e.reason == Reason::ReplacedAncestor && e.via == Some(w)
            }
        },
        image[w].kind == Kind::File ==> write_reason(image, w) == Reason::Overwritten,
        image[w].kind == Kind::Dir ==> write_reason(image, w) == Reason::ReplacedByFile,
{
}

/// Making a directory logs the path where a file stood there, and nothing else.
pub proof fn law_mkdir_log(log: Seq<ObscuredView>, image: Image, m: Path, by: nat)
    ensures
        forall|e: ObscuredView| #[trigger]
            mkdir_log(image, m, by).contains(e) <==> {
                &&& image.contains_key(m)
                &&& image[m].kind == Kind::File
                &&& e.path == m
                &&& e.source_layer == image[m].source
                &&& e.reason == Reason::ReplacedByDir
                &&& e.by_layer == by
                &&& e.via is None
            },
        ({
            let after = log_with_dir(log, image, m, by);
            let file = image.contains_key(m) && image[m].kind == Kind::File;
            &&& !file ==> after == log
            &&& file ==> {
                &&& after.len() == log.len() + 1
                &&& after.take(log.len() as int) == log
                &&& after[log.len() as int].path == m
                &&& after[log.len() as int].source_layer == image[m].source
                &&& after[log.len() as int].reason == Reason::ReplacedByDir
                &&& after[log.len() as int].by_layer == by
                &&& after[log.len() as int].via is None
            }
        }),
{
    let after = log_with_dir(log, image, m, by);
    if image.contains_key(m) && image[m].kind == Kind::File {
        assert(after.take(log.len() as int) =~= log);
    }
}

/// What parents, a directory and a file leave at each path: what was there stays,
/// missing ancestors become directories, the path itself becomes what is made of it, and
/// nothing is left beneath a file.
pub proof fn law_images(image: Image, p: Path, idx: nat, q: Path)
    ensures
        with_parents(image, p, idx).contains_key(q) <==> image.contains_key(q) || under(p, q),
        image.contains_key(q) ==> with_parents(image, p, idx)[q] == image[q],
        !image.contains_key(q) && under(p, q) ==> with_parents(image, p, idx)[q].kind == Kind::Dir
            && with_parents(image, p, idx)[q].source == idx,
        image.contains_key(p) && image[p].kind == Kind::Dir ==> with_dir(image, p, idx) == image,
        !(image.contains_key(p) && image[p].kind == Kind::Dir) ==> {
            let after = with_dir(image, p, idx);
            &&& after.contains_key(q) <==> image.contains_key(q) || q == p || under(p, q)
            &&& after[p].kind == Kind::Dir && after[p].source == idx
            &&& q != p && image.contains_key(q) ==> after[q] == image[q]
            &&& !image.contains_key(q) && under(p, q) ==> after[q].kind == Kind::Dir
                && after[q].source == idx
        },
        ({
            let after = with_file(image, p, idx);
            &&& after.contains_key(q) <==> q == p || !under(q, p) && (image.contains_key(q)
                || under(p, q))
            &&& after[p].kind == Kind::File && after[p].source == idx
            &&& q != p && !under(q, p) && image.contains_key(q) ==> after[q] == image[q]
            &&& !image.contains_key(q) && under(p, q) ==> after[q].kind == Kind::Dir
                && after[q].source == idx
        }),
{
}

/// A path cannot be created beneath a file, and the error says which file.
pub proof fn law_file_above(image: Image, p: Path, a: Path)
    ensures
        file_above(image, p, a) <==> image.contains_key(a) && image[a].kind == Kind::File && exists|
            rest: Seq<char>,
        | p == #[trigger] (a + seq!['/'] + rest),
        internal_error(a).code == ErrorCode::Internal,
        internal_error(a).message == "file '"@ + a + "' survived as an ancestor directory"@,
        internal_error(a).layer is None,
        internal_error(a).path is None,
{
    crate::path::law_under(p, a);
}

} // verus!
