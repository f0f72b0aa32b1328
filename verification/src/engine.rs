//! The merge engine: applies layers one by one to a catalog of live paths and
//! keeps the log of what they hide.
use vstd::prelude::*;
use crate::catalog::{descendants_of, lists, remove_descendants, slot_paths, Catalog, Entry, Slot};
use crate::model::{chronological, logged_before, rooted, stage, Image, Node};
use crate::path::{
    ancestors, ascending, lemma_push_contains, lemma_under_chain, lemma_under_lt,
    lemma_under_transitive, path_lt, paths, under, Path,
};
use crate::text::join3;
use crate::types::{
    log_views, text_view, ErrorCode, ErrorView, Kind, MergeError, Obscured, ObscuredView, Reason,
};

verus! {

/// `after` is `before` with exactly the entries of `added` behind it, each once,
/// in the order in which a layer logs them.
pub open spec fn extends(
    before: Seq<ObscuredView>,
    after: Seq<ObscuredView>,
    added: Set<ObscuredView>,
) -> bool {
    &&& before.len() <= after.len()
    &&& after.take(before.len() as int) == before
    &&& chronological(after.skip(before.len() as int))
    &&& forall|e: ObscuredView| #[trigger]
        after.skip(before.len() as int).contains(e) <==> added.contains(e)
}

/// Everything in `s` is logged before everything in `t`.
pub open spec fn all_before(s: Set<ObscuredView>, t: Set<ObscuredView>) -> bool {
    forall|e: ObscuredView, f: ObscuredView| #[trigger]
        s.contains(e) && #[trigger] t.contains(f) ==> logged_before(e, f)
}

/// The paths of log entries.
pub open spec fn event_paths(s: Seq<ObscuredView>) -> Seq<Path> {
    s.map_values(|e: ObscuredView| e.path)
}

/// `after` is `before` with exactly the entries of `added` behind it, in path order.
pub open spec fn appends_in_order(
    before: Seq<ObscuredView>,
    after: Seq<ObscuredView>,
    added: Set<ObscuredView>,
) -> bool {
    exists|s: Seq<ObscuredView>|
        {
            &&& after == #[trigger] (before + s)
            &&& ascending(event_paths(s))
            &&& forall|e: ObscuredView| s.contains(e) <==> added.contains(e)
        }
}

/// Entries of one record in path order are in the order in which they are logged.
pub proof fn lemma_appends_extends(
    before: Seq<ObscuredView>,
    after: Seq<ObscuredView>,
    image: Image,
    a: Path,
    reason: Reason,
    by: nat,
)
    requires
        appends_in_order(before, after, subtree_log(image, a, reason, by)),
    ensures
        extends(before, after, subtree_log(image, a, reason, by)),
{
    let added = subtree_log(image, a, reason, by);
    let s = choose|s: Seq<ObscuredView>|
        {
            &&& after == #[trigger] (before + s)
            &&& ascending(event_paths(s))
            &&& forall|e: ObscuredView| s.contains(e) <==> added.contains(e)
        };
    assert(after.take(before.len() as int) =~= before);
    assert(after.skip(before.len() as int) =~= s);
    assert forall|i: int, j: int| 0 <= i < j < s.len() implies logged_before(s[i], s[j]) by {
        assert(s.contains(s[i]) && s.contains(s[j]));
        assert(added.contains(s[i]) && added.contains(s[j]));
        assert(path_lt(event_paths(s)[i], event_paths(s)[j]));
    }
}

/// Nothing appended.
pub proof fn lemma_appends_none(a: Seq<ObscuredView>, s: Set<ObscuredView>)
    requires
        forall|e: ObscuredView| !#[trigger] s.contains(e),
    ensures
        appends_in_order(a, a, s),
{
    let none = Seq::<ObscuredView>::empty();
    assert(a + none =~= a);
    assert(ascending(event_paths(none)));
}

/// Two extensions, one logged before the other, make one.
pub proof fn lemma_extends_chain(
    a: Seq<ObscuredView>,
    b: Seq<ObscuredView>,
    c: Seq<ObscuredView>,
    s: Set<ObscuredView>,
    t: Set<ObscuredView>,
)
    requires
        extends(a, b, s),
        extends(b, c, t),
        all_before(s, t),
    ensures
        extends(a, c, s.union(t)),
{
    let x = b.skip(a.len() as int);
    let y = c.skip(b.len() as int);
    let z = c.skip(a.len() as int);
    assert(c.take(a.len() as int) =~= c.take(b.len() as int).take(a.len() as int));
    assert(z =~= x + y) by {
        assert forall|i: int| 0 <= i < z.len() implies z[i] == (x + y)[i] by {
            if i < x.len() {
                assert(c.take(b.len() as int)[a.len() + i] == b[a.len() + i]);
            }
        }
    }
    assert forall|e: ObscuredView| #[trigger] z.contains(e) <==> s.union(t).contains(e) by {
        assert(x.contains(e) <==> s.contains(e));
        assert(y.contains(e) <==> t.contains(e));
        if x.contains(e) {
            let i = choose|i: int| 0 <= i < x.len() && x[i] == e;
            assert(z[i] == e);
        }
        if y.contains(e) {
            let i = choose|i: int| 0 <= i < y.len() && y[i] == e;
            assert(z[x.len() + i] == e);
        }
        if z.contains(e) {
            let i = choose|i: int| 0 <= i < z.len() && z[i] == e;
            if i < x.len() {
                assert(x[i] == e);
            } else {
                assert(y[i - x.len()] == e);
            }
        }
    }
    assert forall|i: int, j: int| 0 <= i < j < z.len() implies logged_before(z[i], z[j]) by {
        if j < x.len() {
            assert(logged_before(x[i], x[j]));
        } else if i >= x.len() {
            assert(logged_before(y[i - x.len()], y[j - x.len()]));
        } else {
            assert(x.contains(x[i]));
            assert(y.contains(y[j - x.len()]));
            assert(s.contains(x[i]) && t.contains(y[j - x.len()]));
        }
    }
}

/// Nothing appended.
pub proof fn lemma_extends_none(a: Seq<ObscuredView>, s: Set<ObscuredView>)
    requires
        forall|e: ObscuredView| !#[trigger] s.contains(e),
    ensures
        extends(a, a, s),
{
    assert(a.take(a.len() as int) =~= a);
    assert(a.skip(a.len() as int).len() == 0);
}

/// One entry appended.
pub proof fn lemma_extends_one(a: Seq<ObscuredView>, e: ObscuredView, s: Set<ObscuredView>)
    requires
        forall|x: ObscuredView| #[trigger] s.contains(x) <==> x == e,
    ensures
        extends(a, a.push(e), s),
{
    let b = a.push(e);
    assert(b.take(a.len() as int) =~= a);
    let tail = b.skip(a.len() as int);
    assert(tail =~= seq![e]);
    assert(tail[0] == e);
}

/// An extension by nothing changes nothing.
pub proof fn lemma_extends_nothing(
    a: Seq<ObscuredView>,
    b: Seq<ObscuredView>,
    s: Set<ObscuredView>,
)
    requires
        extends(a, b, s),
        forall|e: ObscuredView| !#[trigger] s.contains(e),
    ensures
        a == b,
{
    let tail = b.skip(a.len() as int);
    if tail.len() > 0 {
        assert(tail.contains(tail[0]));
    }
    assert(b.take(a.len() as int) =~= b);
}

/// The log entry for hiding what `image` has at `p`.
pub open spec fn record(
    image: Image,
    p: Path,
    reason: Reason,
    by: nat,
    via: Option<Path>,
) -> ObscuredView {
    ObscuredView { path: p, source_layer: image[p].source, reason, by_layer: by, via }
}

/// The log entries for hiding all descendants of `a`.
pub open spec fn subtree_log(image: Image, a: Path, reason: Reason, by: nat) -> Set<
    ObscuredView,
> {
    Set::new(
        |e: ObscuredView|
            image.contains_key(e.path) && under(e.path, a) && e == record(
                image,
                e.path,
                reason,
                by,
                Some(a),
            ),
    )
}

/// The entry of a record's own path is logged before those beneath it.
proof fn lemma_root_first(
    image: Image,
    a: Path,
    own: Reason,
    reason: Reason,
    by: nat,
    one: Set<ObscuredView>,
)
    requires
        stage(own) == stage(reason),
        forall|e: ObscuredView| #[trigger]
            one.contains(e) ==> e == record(image, a, own, by, None),
    ensures
        all_before(one, subtree_log(image, a, reason, by)),
{
    let subs = subtree_log(image, a, reason, by);
    assert forall|e: ObscuredView, f: ObscuredView| #[trigger]
        one.contains(e) && #[trigger] subs.contains(f) implies logged_before(e, f) by {
        lemma_under_lt(f.path, a);
    }
}

/// The log entries of one whiteout.
pub open spec fn whiteout_log(image: Image, w: Path, by: nat) -> Set<ObscuredView> {
    subtree_log(image, w, Reason::WhiteoutAncestor, by).union(
        Set::new(
            |e: ObscuredView|
                image.contains_key(w) && e == record(image, w, Reason::Whiteout, by, None),
        ),
    )
}

/// Why a file write hides what stands at its own path.
pub open spec fn write_reason(image: Image, w: Path) -> Reason {
    if image[w].kind is File {
        Reason::Overwritten
    } else {
        Reason::ReplacedByFile
    }
}

/// The log entries of one file write.
pub open spec fn write_log(image: Image, w: Path, by: nat) -> Set<ObscuredView> {
    subtree_log(image, w, Reason::ReplacedAncestor, by).union(
        Set::new(
            |e: ObscuredView|
                image.contains_key(w) && e == record(
                    image,
                    w,
                    write_reason(image, w),
                    by,
                    None,
                ),
        ),
    )
}

/// The log entries of one directory creation.
pub open spec fn mkdir_log(image: Image, m: Path, by: nat) -> Set<ObscuredView> {
    Set::new(
        |e: ObscuredView|
            image.contains_key(m) && image[m].kind is File && e == record(
                image,
                m,
                Reason::ReplacedByDir,
                by,
                None,
            ),
    )
}

/// The log once `m` has been made a directory: a file there is logged.
pub open spec fn log_with_dir(
    log: Seq<ObscuredView>,
    image: Image,
    m: Path,
    by: nat,
) -> Seq<ObscuredView> {
    if image.contains_key(m) && image[m].kind is File {
        log.push(record(image, m, Reason::ReplacedByDir, by, None))
    } else {
        log
    }
}

/// `image` with the missing ancestors of `p` as directories of layer `idx`.
pub open spec fn with_parents(image: Image, p: Path, idx: nat) -> Image {
    Map::new(
        |q: Path| image.contains_key(q) || under(p, q),
        |q: Path|
            if image.contains_key(q) {
                image[q]
            } else {
                Node { kind: Kind::Dir, source: idx }
            },
    )
}

/// `image` with `p` as a directory.
pub open spec fn with_dir(image: Image, p: Path, idx: nat) -> Image {
    if image.contains_key(p) && image[p].kind is Dir {
        image
    } else {
        with_parents(image, p, idx).insert(p, Node { kind: Kind::Dir, source: idx })
    }
}

/// `image` with `p` as a file and nothing beneath it.
pub open spec fn with_file(image: Image, p: Path, idx: nat) -> Image {
    with_parents(image, p, idx).remove_keys(Set::new(|q: Path| under(q, p))).insert(
        p,
        Node { kind: Kind::File, source: idx },
    )
}

/// `a` is a file above `p`.
pub open spec fn file_above(image: Image, p: Path, a: Path) -> bool {
    under(p, a) && image.contains_key(a) && image[a].kind is File
}

/// The error for a file that should have made way for a directory.
pub open spec fn internal_error(a: Path) -> ErrorView {
    ErrorView::new(
        ErrorCode::Internal,
        "file '"@ + a + "' survived as an ancestor directory"@,
    )
}

/// The state of a merge.
pub struct Engine {
    /// Every live path except the implicit root.
    pub map: Catalog,
    pub events: Vec<Obscured>,
}

impl Engine {
    /// The live paths.
    pub open spec fn image(&self) -> Image {
        self.map@
    }

    /// The log so far.
    pub open spec fn log(&self) -> Seq<ObscuredView> {
        log_views(self.events@)
    }

    /// The parent of every live path is a live directory.
    pub open spec fn inv(&self) -> bool {
        self.map.inv() && rooted(self.image())
    }

    /// Appends one log entry.
    fn push_event(
        &mut self,
        path: &str,
        source: usize,
        reason: Reason,
        by: usize,
        via: Option<String>,
    )
        ensures
            final(self).map == old(self).map,
            final(self).log() == old(self).log().push(
                ObscuredView {
                    path: path@,
                    source_layer: source as nat,
                    reason,
                    by_layer: by as nat,
                    via: text_view(via),
                },
            ),
    {
        let ghost before = self.log();
        self.events.push(
            Obscured { path: path.to_owned(), source_layer: source, reason, by_layer: by, via },
        );
        assert(self.log() =~= before.push(self.events@.last()@));
    }

    /// Logs and removes the descendants of `path`.
    fn hide_descendants(&mut self, by: usize, path: &str, reason: Reason)
        requires
            old(self).map.inv(),
        ensures
            final(self).map.inv(),
            final(self).image() == old(self).image().remove_keys(
                Set::new(|p: Path| under(p, path@)),
            ),
            appends_in_order(
                old(self).log(),
                final(self).log(),
                subtree_log(old(self).image(), path@, reason, by as nat),
            ),
    {
        let ghost image = self.image();
        let ghost before = self.log();
        let subs: Vec<Slot> = descendants_of(&self.map, path);
        let mut i: usize = 0;
        assert(before.take(before.len() as int) =~= before);
        while i < subs.len()
            invariant
                i <= subs.len(),
                self.map == old(self).map,
                image == old(self).image(),
                lists(subs@, image, |p: Path| under(p, path@)),
                self.log().len() == before.len() + i,
                self.log().take(before.len() as int) == before,
                forall|j: int|
                    0 <= j < i ==> #[trigger] self.log()[before.len() + j] == record(
                        image,
                        subs@[j].path@,
                        reason,
                        by as nat,
                        Some(path@),
                    ),
            decreases subs.len() - i,
        {
            let ghost log = self.log();
            self.push_event(
                subs[i].path.as_str(),
                subs[i].entry.source,
                reason,
                by,
                Some(path.to_owned()),
            );
            proof {
                assert(subs@[i as int].entry@ == image[subs@[i as int].path@]);
                assert(self.log().take(before.len() as int) =~= before);
            }
            i += 1;
        }
        remove_descendants(&mut self.map, path);
        proof {
            let tail = self.log().skip(before.len() as int);
            let ps = slot_paths(subs@);
            let added = subtree_log(image, path@, reason, by as nat);
            assert forall|j: int| 0 <= j < tail.len() implies tail[j] == #[trigger] record(
                image,
                ps[j],
                reason,
                by as nat,
                Some(path@),
            ) by {
                assert(self.log()[before.len() + j] == tail[j]);
            }
            assert forall|e: ObscuredView| #[trigger]
                tail.contains(e) <==> added.contains(e) by {
                if tail.contains(e) {
                    let j = choose|j: int| 0 <= j < tail.len() && tail[j] == e;
                    assert(ps.contains(ps[j]));
                    assert(tail[j] == record(image, ps[j], reason, by as nat, Some(path@)));
                }
                if added.contains(e) {
                    assert(ps.contains(e.path));
                    let j = choose|j: int| 0 <= j < ps.len() && ps[j] == e.path;
                    assert(tail[j] == record(image, ps[j], reason, by as nat, Some(path@)));
                }
            }
            assert(self.log() =~= before + tail);
            assert(event_paths(tail) =~= ps) by {
                assert forall|j: int| 0 <= j < tail.len() implies tail[j].path == ps[j] by {
                    assert(tail[j] == record(image, ps[j], reason, by as nat, Some(path@)));
                }
            }
        }
    }

    /// Deletes `path` and everything beneath it.
    pub fn apply_whiteout(&mut self, by: usize, path: &str)
        requires
            old(self).inv(),
        ensures
            final(self).inv(),
            final(self).image() == old(self).image().remove_keys(
                Set::new(|p: Path| p == path@ || under(p, path@)),
            ),
            !old(self).image().contains_key(path@) ==> final(self).log() == old(self).log(),
            old(self).image().contains_key(path@) ==> appends_in_order(
                old(self).log().push(
                    record(old(self).image(), path@, Reason::Whiteout, by as nat, None),
                ),
                final(self).log(),
                subtree_log(old(self).image(), path@, Reason::WhiteoutAncestor, by as nat),
            ),
            extends(
                old(self).log(),
                final(self).log(),
                whiteout_log(old(self).image(), path@, by as nat),
            ),
    {
        let ghost image = self.image();
        let ghost before = self.log();
        let ghost gone = Set::new(|p: Path| p == path@ || under(p, path@));
        let ghost all = whiteout_log(image, path@, by as nat);
        match self.map.get(path) {
            None => {
                // A whiteout without a target: nothing below, nothing to do.
                proof {
                    lemma_extends_none(before, all);
                    assert(image.remove_keys(gone) =~= image);
                }
            },
            Some(entry) => {
                let ghost one = Set::new(
                    |e: ObscuredView|
                        image.contains_key(path@) && e == record(
                            image,
                            path@,
                            Reason::Whiteout,
                            by as nat,
                            None,
                        ),
                );
                let ghost subs = subtree_log(image, path@, Reason::WhiteoutAncestor, by as nat);
                self.push_event(path, entry.source, Reason::Whiteout, by, None);
                let ghost middle = self.log();
                proof {
                    lemma_extends_one(before, middle.last(), one);
                }
                if entry.kind == Kind::Dir {
                    self.hide_descendants(by, path, Reason::WhiteoutAncestor);
                } else {
                    proof {
                        lemma_appends_none(middle, subs);
                        assert(self.image().remove_keys(Set::new(|p: Path| under(p, path@)))
                            =~= image);
                    }
                }
                proof {
                    lemma_appends_extends(
                        middle,
                        self.log(),
                        image,
                        path@,
                        Reason::WhiteoutAncestor,
                        by as nat,
                    );
                    lemma_root_first(
                        image,
                        path@,
                        Reason::Whiteout,
                        Reason::WhiteoutAncestor,
                        by as nat,
                        one,
                    );
                    lemma_extends_chain(before, middle, self.log(), one, subs);
                    assert(one.union(subs) =~= all);
                }
                self.map.remove(path);
                proof {
                    assert(self.image() =~= image.remove_keys(gone));
                }
            },
        }
        proof {
            assert forall|p: Path, a: Path|
                self.image().contains_key(p) && #[trigger] under(
                    p,
                    a,
                ) implies self.image().contains_key(a) && self.image()[a].kind is Dir by {
                if under(a, path@) {
                    lemma_under_transitive(p, a, path@);
                }
            }
        }
    }

    /// Hides everything beneath the directory `path`.
    pub fn apply_opaque(&mut self, by: usize, path: &str)
        requires
            old(self).inv(),
        ensures
            final(self).inv(),
            final(self).image() == old(self).image().remove_keys(
                Set::new(|p: Path| under(p, path@)),
            ),
            !(old(self).image().contains_key(path@) && old(self).image()[path@].kind is Dir)
                ==> final(self).log() == old(self).log() && final(self).image() == old(
                self,
            ).image(),
            appends_in_order(
                old(self).log(),
                final(self).log(),
                subtree_log(old(self).image(), path@, Reason::OpaqueAncestor, by as nat),
            ),
    {
        let ghost image = self.image();
        let is_dir = match self.map.get(path) {
            Some(e) => e.kind == Kind::Dir,
            None => false,
        };
        if is_dir {
            self.hide_descendants(by, path, Reason::OpaqueAncestor);
        } else {
            // The directory is not there yet: nothing to hide.
            proof {
                lemma_appends_none(
                    self.log(),
                    subtree_log(image, path@, Reason::OpaqueAncestor, by as nat),
                );
                assert(image.remove_keys(Set::new(|p: Path| under(p, path@))) =~= image);
            }
        }
        proof {
            assert forall|p: Path, a: Path|
                self.image().contains_key(p) && #[trigger] under(
                    p,
                    a,
                ) implies self.image().contains_key(a) && self.image()[a].kind is Dir by {
                if under(a, path@) {
                    lemma_under_transitive(p, a, path@);
                }
            }
        }
    }

    /// Makes `path` a directory, where its ancestors are already. A file at
    /// `path` makes way only if `path` is the directory that was asked for.
    fn ensure_dir_one(&mut self, idx: usize, path: &str, is_target: bool) -> (r: Result<
        (),
        MergeError,
    >)
        requires
            old(self).inv(),
            forall|a: Path| #[trigger]
                under(path@, a) ==> old(self).image().contains_key(a)
                    && old(self).image()[a].kind is Dir,
        ensures
            final(self).inv(),
            ({
                let image = old(self).image();
                let dir = Node { kind: Kind::Dir, source: idx as nat };
                if image.contains_key(path@) && image[path@].kind is File && !is_target {
                    &&& r is Err
                    &&& r->Err_0@ == internal_error(path@)
                    &&& final(self).image() == image
                    &&& final(self).log() == old(self).log()
                } else {
                    &&& r is Ok
                    &&& final(self).image() == if image.contains_key(path@)
                        && image[path@].kind is Dir {
                        image
                    } else {
                        image.insert(path@, dir)
                    }
                    &&& final(self).log() == log_with_dir(old(self).log(), image, path@, idx as nat)
                    &&& extends(
                        old(self).log(),
                        final(self).log(),
                        mkdir_log(image, path@, idx as nat),
                    )
                }
            }),
    {
        let ghost image = self.image();
        let ghost before = self.log();
        let ghost added = mkdir_log(image, path@, idx as nat);
        match self.map.get(path) {
            None => {
                self.map.insert(path, Entry { kind: Kind::Dir, source: idx });
                proof {
                    lemma_extends_none(before, added);
                }
            },
            Some(e) => {
                if e.kind == Kind::Dir {
                    // Merged with the directory below; its source stays.
                    proof {
                        lemma_extends_none(before, added);
                    }
                } else if is_target {
                    self.push_event(path, e.source, Reason::ReplacedByDir, idx, None);
                    proof {
                        lemma_extends_one(before, self.log().last(), added);
                    }
                    self.map.insert(path, Entry { kind: Kind::Dir, source: idx });
                } else {
                    return Err(
                        MergeError::new(
                            ErrorCode::Internal,
                            join3("file '", path, "' survived as an ancestor directory"),
                        ),
                    );
                }
            },
        }
        Ok(())
    }

    /// Makes every ancestor of `path` a directory.
    fn ensure_parents(&mut self, idx: usize, path: &str) -> (r: Result<(), MergeError>)
        requires
            old(self).inv(),
        ensures
            final(self).inv(),
            final(self).log() == old(self).log(),
            r is Err <==> exists|a: Path| file_above(old(self).image(), path@, a),
            r is Err ==> final(self).image() == old(self).image(),
            r is Err ==> exists|a: Path| #[trigger]
                file_above(old(self).image(), path@, a) && r->Err_0@ == internal_error(a),
            r is Ok ==> final(self).image() == with_parents(
                old(self).image(),
                path@,
                idx as nat,
            ),
            r is Ok ==> forall|a: Path| #[trigger]
                under(path@, a) ==> final(self).image().contains_key(a)
                    && final(self).image()[a].kind is Dir,
    {
        let ghost image = self.image();
        let ghost log = self.log();
        let ancs: Vec<String> = ancestors(path);
        let mut i: usize = 0;
        while i < ancs.len()
            invariant
                i <= ancs.len(),
                self.inv(),
                rooted(image),
                image == old(self).image(),
                log == old(self).log(),
                self.log() == log,
                forall|a: Path|
                    #![trigger paths(ancs@).contains(a)]
                    #![trigger under(path@, a)]
                    paths(ancs@).contains(a) <==> under(path@, a),
                forall|j: int, k: int|
                    0 <= j < k < ancs.len() ==> ancs@[j]@.len() < ancs@[k]@.len(),
                forall|q: Path| #[trigger]
                    self.image().contains_key(q) <==> image.contains_key(q) || paths(
                        ancs@,
                    ).take(i as int).contains(q),
                forall|q: Path| #[trigger]
                    self.image().contains_key(q) ==> self.image()[q] == if image.contains_key(q) {
                        image[q]
                    } else {
                        Node { kind: Kind::Dir, source: idx as nat }
                    },
                forall|j: int|
                    0 <= j < i ==> !(image.contains_key(#[trigger] ancs@[j]@)
                        && image[ancs@[j]@].kind is File),
            decreases ancs.len() - i,
        {
            let ghost anc = ancs@[i as int]@;
            let ghost cur = self.image();
            let ghost done = paths(ancs@).take(i as int);
            proof {
                assert(paths(ancs@)[i as int] == anc);
                assert(paths(ancs@).contains(anc));
                assert forall|a: Path| #[trigger] under(anc, a) implies cur.contains_key(a)
                    && cur[a].kind is Dir by {
                    lemma_under_transitive(path@, anc, a);
                    let j = choose|j: int| 0 <= j < paths(ancs@).len() && paths(ancs@)[j] == a;
                    assert(ancs@[j]@ == a);
                    assert(j < i) by {
                        if j > i {
                            assert(ancs@[i as int]@.len() < ancs@[j]@.len());
                        }
                    }
                    assert(done[j] == a);
                    assert(done.contains(a));
                }
                assert(cur.contains_key(anc) ==> cur[anc] == if image.contains_key(anc) {
                    image[anc]
                } else {
                    Node { kind: Kind::Dir, source: idx as nat }
                });
            }
            match self.ensure_dir_one(idx, ancs[i].as_str(), false) {
                Err(e) => {
                    proof {
                        assert(file_above(image, path@, anc));
                        assert(self.image() =~= image) by {
                            assert forall|q: Path| cur.contains_key(q) implies image.contains_key(
                                q,
                            ) by {
                                if done.contains(q) {
                                    let j = choose|j: int| 0 <= j < done.len() && done[j] == q;
                                    assert(ancs@[j]@ == q);
                                    assert(paths(ancs@)[j] == q);
                                    assert(paths(ancs@).contains(q));
                                    lemma_under_chain(path@, q, anc);
                                    assert(under(anc, q));
                                }
                            }
                        }
                    }
                    return Err(e);
                },
                Ok(()) => {
                    proof {
                        let now = self.image();
                        let next = paths(ancs@).take(i + 1);
                        assert(next =~= done.push(anc));
                        assert(!(cur.contains_key(anc) && cur[anc].kind is File));
                        lemma_extends_nothing(log, self.log(), mkdir_log(cur, anc, idx as nat));
                        assert forall|q: Path| #[trigger]
                            now.contains_key(q) <==> image.contains_key(q) || next.contains(q) by {
                            lemma_push_contains(done, anc, q);
                            assert(cur.contains_key(q) <==> image.contains_key(q) || done.contains(
                                q,
                            ));
                        }
                        assert forall|q: Path| #[trigger] now.contains_key(q) implies now[q]
                            == if image.contains_key(q) {
                            image[q]
                        } else {
                            Node { kind: Kind::Dir, source: idx as nat }
                        } by {
                            assert(cur.contains_key(q) <==> image.contains_key(q) || done.contains(
                                q,
                            ));
                            assert(q != anc ==> cur.contains_key(q));
                        }
                        assert(!(image.contains_key(anc) && image[anc].kind is File));
                    }
                    i += 1;
                },
            }
        }
        proof {
            assert(paths(ancs@).take(i as int) =~= paths(ancs@));
            assert(self.image() =~= with_parents(image, path@, idx as nat));
            assert forall|a: Path| under(path@, a) implies self.image().contains_key(a)
                && self.image()[a].kind is Dir && !file_above(image, path@, a) by {
                assert(paths(ancs@).contains(a));
                let j = choose|j: int| 0 <= j < paths(ancs@).len() && paths(ancs@)[j] == a;
                assert(ancs@[j]@ == a);
            }
        }
        Ok(())
    }

    /// Makes `path` and all its ancestors directories. A file at `path` itself
    /// makes way.
    pub fn ensure_dir(&mut self, idx: usize, path: &str) -> (r: Result<(), MergeError>)
        requires
            old(self).inv(),
        ensures
            final(self).inv(),
            r is Err <==> exists|a: Path| file_above(old(self).image(), path@, a),
            r is Err ==> final(self).image() == old(self).image() && final(self).log() == old(
                self,
            ).log(),
            r is Err ==> exists|a: Path| #[trigger]
                file_above(old(self).image(), path@, a) && r->Err_0@ == internal_error(a),
            r is Ok ==> final(self).image() == with_dir(old(self).image(), path@, idx as nat),
            r is Ok ==> final(self).log() == log_with_dir(
                old(self).log(),
                old(self).image(),
                path@,
                idx as nat,
            ),
            r is Ok ==> extends(
                old(self).log(),
                final(self).log(),
                mkdir_log(old(self).image(), path@, idx as nat),
            ),
    {
        let ghost image = self.image();
        match self.ensure_parents(idx, path) {
            Err(e) => Err(e),
            Ok(()) => {
                let ghost middle = self.image();
                proof {
                    assert(!under(path@, path@));
                    if image.contains_key(path@) && image[path@].kind is Dir {
                        assert(middle =~= image);
                    }
                    assert(mkdir_log(middle, path@, idx as nat) =~= mkdir_log(
                        image,
                        path@,
                        idx as nat,
                    ));
                }
                self.ensure_dir_one(idx, path, true)
            },
        }
    }

    /// Makes `path` a file, creating its ancestors and removing what is beneath it.
    pub fn write_file(&mut self, idx: usize, path: &str) -> (r: Result<(), MergeError>)
        requires
            old(self).inv(),
        ensures
            final(self).inv(),
            r is Err <==> exists|a: Path| file_above(old(self).image(), path@, a),
            r is Err ==> final(self).image() == old(self).image() && final(self).log() == old(
                self,
            ).log(),
            r is Err ==> exists|a: Path| #[trigger]
                file_above(old(self).image(), path@, a) && r->Err_0@ == internal_error(a),
            r is Ok ==> final(self).image() == with_file(old(self).image(), path@, idx as nat),
            r is Ok && !old(self).image().contains_key(path@) ==> final(self).log() == old(
                self,
            ).log(),
            r is Ok && old(self).image().contains_key(path@) ==> appends_in_order(
                old(self).log().push(
                    record(
                        old(self).image(),
                        path@,
                        write_reason(old(self).image(), path@),
                        idx as nat,
                        None,
                    ),
                ),
                final(self).log(),
                subtree_log(old(self).image(), path@, Reason::ReplacedAncestor, idx as nat),
            ),
            r is Ok ==> extends(
                old(self).log(),
                final(self).log(),
                write_log(old(self).image(), path@, idx as nat),
            ),
    {
        let ghost image = self.image();
        let ghost before = self.log();
        match self.ensure_parents(idx, path) {
            Err(e) => {
                return Err(e);
            },
            Ok(()) => {},
        }
        let ghost middle = self.image();
        let ghost all = write_log(image, path@, idx as nat);
        let ghost beneath = Set::new(|p: Path| under(p, path@));
        proof {
            assert(!under(path@, path@));
            assert(middle.contains_key(path@) == image.contains_key(path@));
            assert(write_log(middle, path@, idx as nat) =~= all) by {
                assert forall|p: Path| under(p, path@) implies middle.contains_key(p)
                    == image.contains_key(p) by {
                    if under(path@, p) {
                        lemma_under_transitive(p, path@, p);
                    }
                }
            }
        }
        match self.map.get(path) {
            None => {
                proof {
                    assert(middle.remove_keys(beneath) =~= middle);
                    lemma_extends_none(before, all);
                }
            },
            Some(e) => {
                let reason = if e.kind == Kind::File {
                    Reason::Overwritten
                } else {
                    Reason::ReplacedByFile
                };
                self.push_event(path, e.source, reason, idx, None);
                let ghost log = self.log();
                let ghost one = Set::new(
                    |x: ObscuredView|
                        image.contains_key(path@) && x == record(
                            image,
                            path@,
                            write_reason(image, path@),
                            idx as nat,
                            None,
                        ),
                );
                let ghost subs = subtree_log(middle, path@, Reason::ReplacedAncestor, idx as nat);
                proof {
                    lemma_extends_one(before, log.last(), one);
                }
                if e.kind == Kind::Dir {
                    self.hide_descendants(idx, path, Reason::ReplacedAncestor);
                } else {
                    proof {
                        lemma_appends_none(log, subs);
                        assert(middle.remove_keys(beneath) =~= middle);
                    }
                }
                proof {
                    assert(subs =~= subtree_log(
                        image,
                        path@,
                        Reason::ReplacedAncestor,
                        idx as nat,
                    ));
                    lemma_appends_extends(
                        log,
                        self.log(),
                        middle,
                        path@,
                        Reason::ReplacedAncestor,
                        idx as nat,
                    );
                    lemma_root_first(
                        image,
                        path@,
                        write_reason(image, path@),
                        Reason::ReplacedAncestor,
                        idx as nat,
                        one,
                    );
                    lemma_extends_chain(before, log, self.log(), one, subs);
                    assert(one.union(subs) =~= write_log(middle, path@, idx as nat));
                }
            },
        }
        self.map.insert(path, Entry { kind: Kind::File, source: idx });
        proof {
            let now = self.image();
            assert(now =~= with_file(image, path@, idx as nat));
            assert forall|p: Path, a: Path|
                now.contains_key(p) && #[trigger] under(p, a) implies now.contains_key(a)
                && now[a].kind is Dir by {
                if p == path@ {
                    assert(middle.contains_key(a) && middle[a].kind is Dir);
                    if under(a, path@) {
                        lemma_under_transitive(path@, a, path@);
                    }
                } else {
                    assert(middle.contains_key(p));
                    assert(a != path@);
                    if under(a, path@) {
                        lemma_under_transitive(p, a, path@);
                    }
                }
            }
        }
        Ok(())
    }
}

} // verus!
