//! The merged image as a tree of nodes.
use vstd::prelude::*;
use crate::catalog::{lists, slot_paths, Catalog};
use crate::model::Image;
use crate::path::{
    ascending, lemma_push_contains, lemma_under_chain, lemma_under_transitive, path_lt, same, under,
    Path,
};
use crate::types::{text_view, Kind, TreeNode, TreeView};

verus! {

/// `dir` is the parent directory of `p`: its longest ancestor, or none where `p`
/// stands directly in the root.
pub open spec fn child_of(p: Path, dir: Option<Path>) -> bool {
    match dir {
        None => forall|a: Path| !under(p, a),
        Some(d) => under(p, d) && forall|a: Path| #[trigger] under(p, a) ==> a.len() <= d.len(),
    }
}

/// A path has one parent.
pub proof fn lemma_one_parent(p: Path, x: Option<Path>, y: Option<Path>)
    requires
        child_of(p, x),
        child_of(p, y),
    ensures
        x == y,
{
    match (x, y) {
        (Some(a), Some(b)) => {
            lemma_under_chain(p, a, b);
        },
        (Some(a), None) => {
            assert(under(p, a));
        },
        (None, Some(b)) => {
            assert(under(p, b));
        },
        (None, None) => {},
    }
}

/// The paths of a run of trees.
pub open spec fn tree_paths(s: Seq<TreeView>) -> Seq<Path> {
    s.map_values(|t: TreeView| t.path)
}

/// The trees stand for the paths that the image has directly in `dir`, in path order.
pub open spec fn children_listed(s: Seq<TreeView>, dir: Option<Path>, image: Image) -> bool {
    &&& ascending(tree_paths(s))
    &&& forall|p: Path| #[trigger]
        tree_paths(s).contains(p) <==> image.contains_key(p) && child_of(p, dir)
}

/// The tree is that of what the image has at its path.
pub open spec fn node_shows(t: TreeView, image: Image) -> bool
    decreases t,
{
    &&& t.kind == image[t.path].kind
    &&& t.source_layer == Some(image[t.path].source)
    &&& children_listed(t.children, Some(t.path), image)
    &&& forall|i: int| 0 <= i < t.children.len() ==> node_shows(#[trigger] t.children[i], image)
}

/// The trees are those of what the image has directly in `dir`, in path order.
pub open spec fn children_show(s: Seq<TreeView>, dir: Option<Path>, image: Image) -> bool {
    &&& children_listed(s, dir, image)
    &&& forall|i: int| 0 <= i < s.len() ==> node_shows(#[trigger] s[i], image)
}

/// The tree is that of the whole image: a directory without a name or a source.
pub open spec fn tree_shows(t: TreeView, image: Image) -> bool {
    &&& t.kind is Dir
    &&& t.path == Seq::<char>::empty()
    &&& t.source_layer is None
    &&& children_show(t.children, None, image)
}

/// The trees of a run of nodes.
pub open spec fn node_views(v: Seq<TreeNode>) -> Seq<TreeView> {
    v.map_values(|n: TreeNode| n@)
}

/// The path of an optional directory.
pub open spec fn dir_view(dir: Option<&str>) -> Option<Path> {
    match dir {
        Some(d) => Some(d@),
        None => None,
    }
}

/// The parent directory of a path.
fn parent_of(path: &str) -> (r: Option<String>)
    ensures
        child_of(path@, text_view(r)),
{
    let n = path.unicode_len();
    let mut it = path.chars();
    let mut last: Option<usize> = None;
    let mut i: usize = 0;
    assert(path@.skip(0) =~= path@);
    while i < n
        invariant
            i <= n,
            n == path@.len(),
            vstd::std_specs::iter::IteratorSpec::remaining(&it) == path@.skip(i as int),
            match last {
                None => forall|j: int| 0 <= j < i ==> path@[j] != '/',
                Some(l) => l < i && path@[l as int] == '/' && forall|j: int|
                    l < j < i ==> path@[j] != '/',
            },
        decreases n - i,
    {
        match it.next() {
            None => {
                assert(false);
            },
            Some(c) => {
                assert(c == path@[i as int]);
                assert(path@.skip(i as int).drop_first() =~= path@.skip(i + 1));
                if c == '/' {
                    last = Some(i);
                }
                i += 1;
            },
        }
    }
    match last {
        None => None,
        Some(l) => {
            let d = path.substring_char(0, l).to_owned();
            assert(d@ =~= path@.take(l as int));
            Some(d)
        },
    }
}

/// Tells whether `dir` is the parent directory of `path`.
fn is_child(path: &str, dir: Option<&str>) -> (r: bool)
    ensures
        r == child_of(path@, dir_view(dir)),
{
    let parent = parent_of(path);
    proof {
        if child_of(path@, dir_view(dir)) {
            lemma_one_parent(path@, text_view(parent), dir_view(dir));
        }
    }
    match (&parent, dir) {
        (Some(a), Some(b)) => same(a.as_str(), b),
        (None, None) => true,
        _ => false,
    }
}

/// The nodes that stand directly in `dir`, whose descendants are the slots
/// from `lo` up to `hi`.
fn build_children(map: &Catalog, lo: usize, hi: usize, dir: Option<&str>) -> (r: Vec<TreeNode>)
    requires
        map.inv(),
        lo <= hi <= map.spec_slots().len(),
        forall|i: int|
            0 <= i < map.spec_slots().len() ==> (lo <= i < hi <==> dir is None || under(
                #[trigger] map.spec_slots()[i].path@,
                dir->0@,
            )),
    ensures
        children_show(node_views(r@), dir_view(dir), map@),
    decreases hi - lo,
{
    let slots = map.slots();
    let ghost ps = slot_paths(slots@);
    let mut nodes: Vec<TreeNode> = Vec::new();
    let mut i: usize = lo;
    while i < hi
        invariant
            lo <= i <= hi <= slots@.len(),
            map.inv(),
            slots@ == map.spec_slots(),
            lists(slots@, map@, |p: Path| true),
            ps == slot_paths(slots@),
            forall|k: int|
                0 <= k < slots@.len() ==> (lo <= k < hi <==> dir is None || under(
                    #[trigger] slots@[k].path@,
                    dir->0@,
                )),
            ascending(tree_paths(node_views(nodes@))),
            forall|p: Path| #[trigger]
                tree_paths(node_views(nodes@)).contains(p) <==> ps.take(i as int).contains(p)
                    && child_of(p, dir_view(dir)),
            forall|k: int|
                0 <= k < nodes@.len() ==> #[trigger] node_shows(node_views(nodes@)[k], map@),
        decreases hi - i,
    {
        let ghost before = node_views(nodes@);
        let ghost p = slots@[i as int].path@;
        let path = slots[i].path.as_str();
        proof {
            assert(ps[i as int] == p);
            assert(ps.take(i + 1) =~= ps.take(i as int).push(p));
            assert forall|q: Path|
                ps.take(i + 1).contains(q) <==> ps.take(i as int).contains(q) || q == p by {
                lemma_push_contains(ps.take(i as int), p, q);
            }
        }
        if is_child(path, dir) {
            let (below_lo, below_hi) = map.span(path);
            proof {
                assert(!under(p, p));
                if below_lo < below_hi {
                    assert(under(slots@[below_lo as int].path@, p));
                    assert(under(slots@[below_hi - 1].path@, p));
                    if dir is Some {
                        lemma_under_transitive(slots@[below_lo as int].path@, p, dir->0@);
                        lemma_under_transitive(slots@[below_hi - 1].path@, p, dir->0@);
                    }
                }
            }
            let node = TreeNode {
                kind: slots[i].entry.kind,
                path: slots[i].path.clone(),
                source_layer: Some(slots[i].entry.source),
                children: build_children(map, below_lo, below_hi, Some(path)),
            };
            proof {
                assert(node@.children =~= node_views(node.children@));
            }
            nodes.push(node);
            proof {
                let after = node_views(nodes@);
                assert(after =~= before.push(node@));
                let old_paths = tree_paths(before);
                let new_paths = tree_paths(after);
                assert(new_paths =~= old_paths.push(p));
                assert forall|q: Path| #[trigger]
                    new_paths.contains(q) <==> ps.take(i + 1).contains(q) && child_of(
                        q,
                        dir_view(dir),
                    ) by {
                    lemma_push_contains(old_paths, p, q);
                    assert(old_paths.contains(q) <==> ps.take(i as int).contains(q) && child_of(
                        q,
                        dir_view(dir),
                    ));
                }
                assert forall|a: int, b: int| 0 <= a < b < new_paths.len() implies path_lt(
                    new_paths[a],
                    new_paths[b],
                ) by {
                    if b == old_paths.len() {
                        assert(old_paths.contains(old_paths[a]));
                        assert(ps.take(i as int).contains(old_paths[a]));
                        let k = choose|k: int|
                            0 <= k < i && ps.take(i as int)[k] == old_paths[a];
                        assert(path_lt(ps[k], ps[i as int]));
                    } else {
                        assert(path_lt(old_paths[a], old_paths[b]));
                    }
                }
                assert forall|k: int| 0 <= k < nodes@.len() implies #[trigger] node_shows(
                    after[k],
                    map@,
                ) by {
                    if k < before.len() {
                        assert(node_shows(before[k], map@));
                    }
                }
            }
        }
        i += 1;
    }
    proof {
        let done = ps.take(i as int);
        assert forall|p: Path| #[trigger]
            tree_paths(node_views(nodes@)).contains(p) <==> map@.contains_key(p) && child_of(
                p,
                dir_view(dir),
            ) by {
            assert(ps.contains(p) <==> map@.contains_key(p));
            if done.contains(p) {
                let k = choose|k: int| 0 <= k < i && done[k] == p;
                assert(ps[k] == p);
            }
            if ps.contains(p) && child_of(p, dir_view(dir)) {
                let k = choose|k: int| 0 <= k < ps.len() && ps[k] == p;
                assert(slots@[k].path@ == p);
                assert(done[k] == p);
            }
        }
    }
    nodes
}

/// The tree of the catalog. Children come in path order.
pub fn build_tree(map: &Catalog) -> (r: TreeNode)
    requires
        map.inv(),
    ensures
        tree_shows(r@, map@),
{
    let n = map.slots().len();
    let root = TreeNode {
        kind: Kind::Dir,
        path: String::new(),
        source_layer: None,
        children: build_children(map, 0, n, None),
    };
    assert(root@.children =~= node_views(root.children@));
    assert(root@.path =~= Seq::<char>::empty());
    root
}

} // verus!
