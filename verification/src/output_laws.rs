//! What an output tells of an image and a log: its tree node by node, its files,
//! its log entries and its totals.
use vstd::prelude::*;
use crate::catalog::{lists, slot_paths, Slot};
use crate::merge::{describes, entries_at, event_lt, file_paths, files_shown, same_order};
use crate::model::Image;
use crate::path::{
    ascending, lemma_lt_asymmetric, lemma_lt_total, non_descending, path_lt, rank_of, under, Path,
    Rank,
};
use crate::tree::{child_of, children_listed, node_shows, tree_paths, tree_shows};
use crate::types::{FileView, Kind, ObscuredView, OutputView, TreeView};

verus! {

// ---------------------------------------------------------------------------
// The tree
// ---------------------------------------------------------------------------

/// The characters hold no slash.
pub open spec fn slash_free(s: Seq<char>) -> bool {
    forall|i: int| 0 <= i < s.len() ==> #[trigger] s[i] != '/'
}

/// A path stands directly in the root where it holds no slash, and directly in a
/// directory where it is the directory's path, a slash, and a name without a slash.
pub proof fn law_child_of(p: Path, d: Path)
    ensures
        child_of(p, None) <==> slash_free(p),
        child_of(p, Some(d)) <==> exists|name: Seq<char>|
            slash_free(name) && p == #[trigger] (d + seq!['/'] + name),
{
    if child_of(p, None) {
        assert forall|i: int| 0 <= i < p.len() implies #[trigger] p[i] != '/' by {
            assert(!under(p, p.take(i)));
        }
    }
    if child_of(p, Some(d)) {
        let name = p.skip(d.len() as int + 1);
        assert(p.take(d.len() as int) == d);
        assert forall|i: int| 0 <= i < p.len() implies p[i] == (d + seq!['/'] + name)[i] by {
            if i < d.len() {
                assert(p.take(d.len() as int)[i] == d[i]);
            }
        }
        assert(p =~= d + seq!['/'] + name);
        assert forall|i: int| 0 <= i < name.len() implies #[trigger] name[i] != '/' by {
            let k = i + d.len() as int + 1;
            assert(name[i] == p[k]);
            assert(p.take(k).len() == k);
            if p[k] == '/' {
                assert(under(p, p.take(k)));
            }
        }
        assert(slash_free(name));
    }
    if exists|name: Seq<char>| slash_free(name) && p == #[trigger] (d + seq!['/'] + name) {
        let name = choose|name: Seq<char>|
            slash_free(name) && p == #[trigger] (d + seq!['/'] + name);
        assert(p.take(d.len() as int) =~= d);
        assert(under(p, d));
        assert forall|a: Path| #[trigger] under(p, a) implies a.len() <= d.len() by {
            if a.len() > d.len() {
                assert(p[a.len() as int] == '/');
                assert(name[a.len() - d.len() - 1] == p[a.len() as int]);
            }
        }
    }
}

/// The children stand in strict path order, each for a live path directly in the
/// directory, and none is missing.
proof fn lemma_children(s: Seq<TreeView>, dir: Option<Path>, image: Image)
    requires
        children_listed(s, dir, image),
    ensures
        forall|i: int, j: int|
            0 <= i < j < s.len() ==> path_lt((#[trigger] s[i]).path, (#[trigger] s[j]).path),
        forall|i: int|
            0 <= i < s.len() ==> image.contains_key((#[trigger] s[i]).path) && child_of(
                s[i].path,
                dir,
            ),
        forall|p: Path| #[trigger]
            image.contains_key(p) && child_of(p, dir) ==> exists|i: int|
                0 <= i < s.len() && (#[trigger] s[i]).path == p,
{
    let ps = tree_paths(s);
    assert forall|i: int, j: int| 0 <= i < j < s.len() implies path_lt(
        (#[trigger] s[i]).path,
        (#[trigger] s[j]).path,
    ) by {
        assert(path_lt(ps[i], ps[j]));
    }
    assert forall|i: int| 0 <= i < s.len() implies image.contains_key((#[trigger] s[i]).path)
        && child_of(s[i].path, dir) by {
        assert(ps[i] == s[i].path);
        assert(ps.contains(s[i].path));
    }
    assert forall|p: Path| #[trigger] image.contains_key(p) && child_of(p, dir) implies exists|
        i: int,
    | 0 <= i < s.len() && (#[trigger] s[i]).path == p by {
        assert(ps.contains(p));
        let i = choose|i: int| 0 <= i < ps.len() && ps[i] == p;
        assert(s[i].path == p);
    }
}

/// The root of a tree is a directory without a name or a source. Its children
/// stand, in strict path order, for the live paths without a slash, and each shows what
/// is live there.
pub proof fn law_root_shown(t: TreeView, image: Image)
    requires
        tree_shows(t, image),
    ensures
        t.kind == Kind::Dir,
        t.path.len() == 0,
        t.source_layer is None,
        forall|i: int, j: int|
            0 <= i < j < t.children.len() ==> path_lt(
                (#[trigger] t.children[i]).path,
                (#[trigger] t.children[j]).path,
            ),
        forall|i: int|
            0 <= i < t.children.len() ==> {
                let c = #[trigger] t.children[i];
                &&& image.contains_key(c.path)
                &&& slash_free(c.path)
                &&& c.kind == image[c.path].kind
                &&& c.source_layer == Some(image[c.path].source)
                &&& node_shows(c, image)
            },
        forall|p: Path| #[trigger]
            image.contains_key(p) && slash_free(p) ==> exists|i: int|
                0 <= i < t.children.len() && (#[trigger] t.children[i]).path == p,
{
    lemma_children(t.children, None, image);
    assert forall|p: Path| child_of(p, None) <==> #[trigger] slash_free(p) by {
        law_child_of(p, p);
    }
}

/// The children of a node stand, in strict path order, for the live paths that are
/// its path, a slash and a name without a slash, and each shows what is live there.
pub proof fn law_node_shown(n: TreeView, image: Image)
    requires
        node_shows(n, image),
    ensures
        n.kind == image[n.path].kind,
        n.source_layer == Some(image[n.path].source),
        forall|i: int, j: int|
            0 <= i < j < n.children.len() ==> path_lt(
                (#[trigger] n.children[i]).path,
                (#[trigger] n.children[j]).path,
            ),
        forall|i: int|
            0 <= i < n.children.len() ==> {
                let c = #[trigger] n.children[i];
                &&& image.contains_key(c.path)
                &&& exists|name: Seq<char>|
                    slash_free(name) && c.path == #[trigger] (n.path + seq!['/'] + name)
                &&& c.kind == image[c.path].kind
                &&& c.source_layer == Some(image[c.path].source)
                &&& node_shows(c, image)
            },
        forall|name: Seq<char>|
            slash_free(name) && image.contains_key(#[trigger] (n.path + seq!['/'] + name))
                ==> exists|i: int|
                0 <= i < n.children.len() && (#[trigger] n.children[i]).path == n.path + seq!['/']
                    + name,
{
    reveal_with_fuel(node_shows, 2);
    let s = n.children;
    lemma_children(s, Some(n.path), image);
    assert forall|i: int| 0 <= i < s.len() implies (exists|name: Seq<char>|
        slash_free(name) && (#[trigger] s[i]).path == #[trigger] (n.path + seq!['/'] + name)) by {
        law_child_of(s[i].path, n.path);
    }
    assert forall|name: Seq<char>|
        slash_free(name) && image.contains_key(
            #[trigger] (n.path + seq!['/'] + name),
        ) implies exists|i: int|
        0 <= i < n.children.len() && (#[trigger] n.children[i]).path == n.path + seq!['/']
            + name by {
        let p = n.path + seq!['/'] + name;
        law_child_of(p, n.path);
        assert(child_of(p, Some(n.path)));
    }
}

// ---------------------------------------------------------------------------
// Files, entries, totals
// ---------------------------------------------------------------------------

/// The files of an output are the live files with their layers, each once, in
/// strict path order.
pub proof fn law_files_shown(s: Seq<FileView>, image: Image)
    requires
        files_shown(s, image),
    ensures
        forall|i: int, j: int|
            0 <= i < j < s.len() ==> path_lt((#[trigger] s[i]).path, (#[trigger] s[j]).path),
        forall|i: int|
            0 <= i < s.len() ==> {
                let f = #[trigger] s[i];
                &&& image.contains_key(f.path)
                &&& image[f.path].kind == Kind::File
                &&& f.source_layer == image[f.path].source
            },
        forall|p: Path| #[trigger]
            image.contains_key(p) && image[p].kind == Kind::File ==> exists|i: int|
                0 <= i < s.len() && (#[trigger] s[i]).path == p,
{
    let ps = file_paths(s);
    assert forall|i: int, j: int| 0 <= i < j < s.len() implies path_lt(
        (#[trigger] s[i]).path,
        (#[trigger] s[j]).path,
    ) by {
        assert(path_lt(ps[i], ps[j]));
    }
    assert forall|i: int| 0 <= i < s.len() implies image.contains_key((#[trigger] s[i]).path)
        && image[s[i].path].kind == Kind::File by {
        assert(ps[i] == s[i].path);
        assert(ps.contains(s[i].path));
    }
    assert forall|p: Path| #[trigger]
        image.contains_key(p) && image[p].kind == Kind::File implies exists|i: int|
        0 <= i < s.len() && (#[trigger] s[i]).path == p by {
        assert(ps.contains(p));
        let i = choose|i: int| 0 <= i < ps.len() && ps[i] == p;
        assert(s[i].path == p);
    }
}

/// The entries of an output are those of the log, each once, by layer and within a
/// layer in strict path order. The totals count the layers, the files, the live
/// directories and the entries.
pub proof fn law_described(
    out: OutputView,
    image: Image,
    log: Set<ObscuredView>,
    layers: nat,
)
    requires
        describes(out, image, log, layers),
    ensures
        tree_shows(out.tree, image),
        files_shown(out.files, image),
        forall|i: int, j: int|
            0 <= i < j < out.obscured.len() ==> {
                let a = #[trigger] out.obscured[i];
                let b = #[trigger] out.obscured[j];
                a.by_layer < b.by_layer || a.by_layer == b.by_layer && path_lt(a.path, b.path)
            },
        forall|i: int|
            0 <= i < out.obscured.len() ==> log.contains(#[trigger] out.obscured[i]),
        forall|e: ObscuredView| #[trigger]
            log.contains(e) ==> exists|i: int|
                0 <= i < out.obscured.len() && #[trigger] out.obscured[i] == e,
        out.stats.layers == layers,
        out.stats.files == out.files.len(),
        out.stats.dirs == Set::new(
            |p: Path| image.contains_key(p) && image[p].kind == Kind::Dir,
        ).len(),
        out.stats.obscured == out.obscured.len(),
{
    let s = out.obscured;
    assert forall|i: int, j: int| 0 <= i < j < s.len() implies ({
        let a = #[trigger] s[i];
        let b = #[trigger] s[j];
        a.by_layer < b.by_layer || a.by_layer == b.by_layer && path_lt(a.path, b.path)
    }) by {
        assert(event_lt(s[i], s[j]));
    }
    assert forall|i: int| 0 <= i < s.len() implies log.contains(#[trigger] s[i]) by {
        assert(s.contains(s[i]));
    }
    assert forall|e: ObscuredView| #[trigger] log.contains(e) implies exists|i: int|
        0 <= i < s.len() && #[trigger] s[i] == e by {
        assert(s.contains(e));
        let i = choose|i: int| 0 <= i < s.len() && s[i] == e;
        assert(s[i] == e);
    }
    assert(Set::new(|p: Path| image.contains_key(p) && image[p].kind == Kind::Dir)
        =~= image.dom().filter(|p: Path| image[p].kind is Dir));
}

/// Entries with one layer and path keep their order where, for each layer and
/// path, what is left of both lists when all others are taken out is the same.
pub proof fn law_same_order(s: Seq<ObscuredView>, t: Seq<ObscuredView>, by: nat, p: Path)
    requires
        same_order(s, t),
    ensures
        s.filter(|e: ObscuredView| e.by_layer == by && e.path == p) == t.filter(
            |e: ObscuredView| e.by_layer == by && e.path == p,
        ),
{
    assert(entries_at(s, by, p) == entries_at(t, by, p));
}

// ---------------------------------------------------------------------------
// Lists of paths
// ---------------------------------------------------------------------------

/// The rank of two paths is that of the path order.
pub proof fn law_rank(a: Path, b: Path)
    ensures
        rank_of(a, b) == Rank::Same <==> a == b,
        rank_of(a, b) == Rank::Before <==> path_lt(a, b),
        rank_of(a, b) == Rank::After <==> path_lt(b, a),
{
    crate::path::lemma_lt_irreflexive(a);
    lemma_lt_total(a, b);
    if path_lt(a, b) {
        lemma_lt_asymmetric(a, b);
    }
    if path_lt(b, a) {
        lemma_lt_asymmetric(b, a);
    }
}

/// A list ascends where each path comes before all that follow, and does not
/// descend where none comes before one that stands ahead of it.
pub proof fn law_sorted(s: Seq<Path>)
    ensures
        ascending(s) <==> forall|i: int, j: int|
            0 <= i < j < s.len() ==> path_lt(#[trigger] s[i], #[trigger] s[j]),
        non_descending(s) <==> forall|i: int, j: int|
            0 <= i < j < s.len() ==> !path_lt(#[trigger] s[j], #[trigger] s[i]),
{
}

/// Slots that list an image hold the entries at the wanted paths, each once, in
/// strict path order.
pub proof fn law_lists(s: Seq<Slot>, image: Image, keep: spec_fn(Path) -> bool)
    requires
        lists(s, image, keep),
    ensures
        forall|i: int, j: int|
            0 <= i < j < s.len() ==> path_lt((#[trigger] s[i]).path@, (#[trigger] s[j]).path@),
        forall|i: int|
            0 <= i < s.len() ==> {
                let x = #[trigger] s[i];
                &&& image.contains_key(x.path@)
                &&& keep(x.path@)
                &&& x.entry.kind == image[x.path@].kind
                &&& x.entry.source == image[x.path@].source
            },
        forall|p: Path| #[trigger]
            image.contains_key(p) && keep(p) ==> exists|i: int|
                0 <= i < s.len() && (#[trigger] s[i]).path@ == p,
{
    let ps = slot_paths(s);
    assert forall|i: int, j: int| 0 <= i < j < s.len() implies path_lt(
        (#[trigger] s[i]).path@,
        (#[trigger] s[j]).path@,
    ) by {
        assert(path_lt(ps[i], ps[j]));
    }
    assert forall|i: int| 0 <= i < s.len() implies image.contains_key((#[trigger] s[i]).path@)
        && keep(s[i].path@) by {
        assert(ps[i] == s[i].path@);
        assert(ps.contains(s[i].path@));
    }
    assert forall|p: Path| #[trigger] image.contains_key(p) && keep(p) implies exists|i: int|
        0 <= i < s.len() && (#[trigger] s[i]).path@ == p by {
        assert(ps.contains(p));
        let i = choose|i: int| 0 <= i < ps.len() && ps[i] == p;
        assert(s[i].path@ == p);
    }
}

} // verus!
