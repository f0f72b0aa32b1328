//! Merging all layers and describing the result.
use vstd::prelude::*;
use crate::catalog::{lists, slot_paths, Catalog};
use crate::engine::{extends, lemma_extends_chain, lemma_extends_none, Engine};
use crate::model::{
    all_fit, chronological, hidden, image_after, layer_fits, layer_log, log_after, logged_before,
    merge_refusal, Image, Node,
};
use crate::path::{
    ascending, lemma_ascending_distinct, lemma_lt_asymmetric, lemma_lt_irreflexive, lemma_lt_total,
    lemma_lt_transitive, lemma_push_contains, path_lt, rank, Path, Rank,
};
use crate::tree::{build_tree, tree_shows};
use crate::types::{
    file_views, log_views, FileSource, FileView, Input, Kind, LayerView, MergeError, Obscured,
    ObscuredView, Output, OutputView, Stats,
};

verus! {

// ---------------------------------------------------------------------------
// What a merge reports
// ---------------------------------------------------------------------------

/// The log entry `a` comes before `b`: by layer first, then by path.
pub open spec fn event_lt(a: ObscuredView, b: ObscuredView) -> bool {
    a.by_layer < b.by_layer || a.by_layer == b.by_layer && path_lt(a.path, b.path)
}

/// Every log entry comes strictly before all that follow it.
pub open spec fn events_ascending(s: Seq<ObscuredView>) -> bool {
    forall|i: int, j: int| 0 <= i < j < s.len() ==> event_lt(s[i], s[j])
}

/// No log entry comes after one that follows it.
pub open spec fn events_non_descending(s: Seq<ObscuredView>) -> bool {
    forall|i: int, j: int| 0 <= i < j < s.len() ==> !event_lt(s[j], s[i])
}

/// The entries of one layer at one path, in their order.
pub open spec fn entries_at(s: Seq<ObscuredView>, by: nat, p: Path) -> Seq<ObscuredView> {
    s.filter(|e: ObscuredView| e.by_layer == by && e.path == p)
}

/// Entries with the same layer and path come in the same order in both.
pub open spec fn same_order(s: Seq<ObscuredView>, t: Seq<ObscuredView>) -> bool {
    forall|by: nat, p: Path| #[trigger] entries_at(s, by, p) == entries_at(t, by, p)
}

/// The paths of a list of files.
pub open spec fn file_paths(s: Seq<FileView>) -> Seq<Path> {
    s.map_values(|f: FileView| f.path)
}

/// The list holds exactly the files of the image with their layers, in path order.
pub open spec fn files_shown(s: Seq<FileView>, image: Image) -> bool {
    &&& ascending(file_paths(s))
    &&& forall|p: Path| #[trigger]
        file_paths(s).contains(p) <==> image.contains_key(p) && image[p].kind is File
    &&& forall|i: int|
        0 <= i < s.len() ==> (#[trigger] s[i]).source_layer == image[s[i].path].source
}

/// The number of directories of the image.
pub open spec fn dir_count(image: Image) -> nat {
    image.dom().filter(|p: Path| image[p].kind is Dir).len()
}

/// The output describes the image and the log of so many layers.
pub open spec fn describes(
    out: OutputView,
    image: Image,
    log: Set<ObscuredView>,
    layers: nat,
) -> bool {
    &&& tree_shows(out.tree, image)
    &&& files_shown(out.files, image)
    &&& events_ascending(out.obscured)
    &&& forall|e: ObscuredView| #[trigger] out.obscured.contains(e) <==> log.contains(e)
    &&& out.stats.layers == layers
    &&& out.stats.files == out.files.len()
    &&& out.stats.dirs == dir_count(image)
    &&& out.stats.obscured == out.obscured.len()
}

// ---------------------------------------------------------------------------
// Collecting the report
// ---------------------------------------------------------------------------

/// Two log entries do not come before each other.
pub proof fn lemma_event_asymmetric(a: ObscuredView, b: ObscuredView)
    requires
        event_lt(a, b),
    ensures
        !event_lt(b, a),
{
    if a.by_layer == b.by_layer {
        lemma_lt_asymmetric(a.path, b.path);
    }
}

/// Tells whether the log entry `a` comes before `b`.
fn earlier(a: &Obscured, b: &Obscured) -> (r: bool)
    ensures
        r == event_lt(a@, b@),
{
    proof {
        lemma_lt_irreflexive(a.path@);
    }
    if a.by_layer == b.by_layer {
        rank(a.path.as_str(), b.path.as_str()) == Rank::Before
    } else {
        a.by_layer < b.by_layer
    }
}

/// An entry that goes in before later ones only keeps its place among its equals.
proof fn lemma_insert_keeps_order(
    s: Seq<ObscuredView>,
    i: int,
    x: ObscuredView,
    by: nat,
    p: Path,
)
    requires
        0 <= i <= s.len(),
        forall|j: int| i <= j < s.len() ==> event_lt(x, #[trigger] s[j]),
    ensures
        entries_at(s.insert(i, x), by, p) == entries_at(s.push(x), by, p),
{
    let pred = |e: ObscuredView| e.by_layer == by && e.path == p;
    let a = s.take(i);
    let b = s.skip(i);
    let one = seq![x];
    assert(s.insert(i, x) =~= a + one + b);
    assert(s.push(x) =~= a + b + one);
    Seq::filter_distributes_over_add(a + one, b, pred);
    Seq::filter_distributes_over_add(a, one, pred);
    Seq::filter_distributes_over_add(a + b, one, pred);
    Seq::filter_distributes_over_add(a, b, pred);
    if pred(x) {
        lemma_lt_irreflexive(p);
        assert forall|j: int| 0 <= j < b.len() implies !pred(#[trigger] b[j]) by {
            assert(event_lt(x, s[i + j]));
        }
        b.lemma_all_neg_filter_empty(pred);
        assert(b.filter(pred) =~= Seq::empty());
        assert(a.filter(pred) + one.filter(pred) + b.filter(pred) =~= a.filter(pred) + b.filter(
            pred,
        ) + one.filter(pred));
    } else {
        assert forall|j: int| 0 <= j < one.len() implies !pred(#[trigger] one[j]) by {}
        one.lemma_all_neg_filter_empty(pred);
        assert(one.filter(pred) =~= Seq::empty());
        assert(a.filter(pred) + one.filter(pred) + b.filter(pred) =~= a.filter(pred) + b.filter(
            pred,
        ) + one.filter(pred));
    }
}

/// Puts `e` behind the last entry of `v` that does not come after it.
fn insert_event(v: &mut Vec<Obscured>, e: Obscured)
    requires
        events_non_descending(log_views(old(v)@)),
    ensures
        log_views(final(v)@).to_multiset() == log_views(old(v)@).to_multiset().insert(e@),
        events_non_descending(log_views(final(v)@)),
        same_order(log_views(final(v)@), log_views(old(v)@).push(e@)),
{
    let mut i: usize = v.len();
    while i > 0 && earlier(&e, &v[i - 1])
        invariant
            i <= v.len(),
            v@ == old(v)@,
            forall|j: int| i <= j < v.len() ==> event_lt(e@, #[trigger] v@[j]@),
        decreases i,
    {
        i -= 1;
    }
    let ghost s = log_views(v@);
    let ghost x = e@;
    v.insert(i, e);
    proof {
        let t = log_views(v@);
        assert(t =~= s.insert(i as int, x));
        vstd::seq_lib::to_multiset_insert(s, i as int, x);
        assert forall|by: nat, p: Path| #[trigger]
            entries_at(t, by, p) == entries_at(s.push(x), by, p) by {
            lemma_insert_keeps_order(s, i as int, x, by, p);
        }
        assert forall|a: int, b: int| 0 <= a < b < t.len() implies !event_lt(t[b], t[a]) by {
            if a < i && b > i {
                assert(!event_lt(s[b - 1], s[a]));
            } else if a > i {
                assert(!event_lt(s[b - 1], s[a - 1]));
            } else if a == i {
                assert(event_lt(x, s[b - 1]));
                lemma_event_asymmetric(x, s[b - 1]);
            } else if b == i {
                assert(!event_lt(x, s[i - 1]));
                if a < i - 1 && event_lt(x, s[a]) {
                    assert(!event_lt(s[i - 1], s[a]));
                    lemma_event_behind(x, s[a], s[i - 1]);
                }
            } else {
                assert(!event_lt(s[b], s[a]));
            }
        }
    }
}

/// Where `a` comes before `b`, and `c` does not come before `b`, `a` comes before `c`.
proof fn lemma_event_behind(a: ObscuredView, b: ObscuredView, c: ObscuredView)
    requires
        event_lt(a, b),
        !event_lt(c, b),
    ensures
        event_lt(a, c),
{
    if b.by_layer == c.by_layer {
        lemma_lt_total(c.path, b.path);
        if a.by_layer == b.by_layer && c.path != b.path {
            lemma_lt_transitive(a.path, b.path, c.path);
        }
    }
}

/// The log entries in order. Those with the same layer and path stay as they were.
fn sort_events(events: &Vec<Obscured>) -> (r: Vec<Obscured>)
    ensures
        log_views(r@).to_multiset() == log_views(events@).to_multiset(),
        events_non_descending(log_views(r@)),
        same_order(log_views(r@), log_views(events@)),
{
    let mut v: Vec<Obscured> = Vec::new();
    let mut i: usize = 0;
    assert(log_views(v@) =~= log_views(events@).take(0));
    while i < events.len()
        invariant
            i <= events.len(),
            log_views(v@).to_multiset() == log_views(events@).take(i as int).to_multiset(),
            events_non_descending(log_views(v@)),
            same_order(log_views(v@), log_views(events@).take(i as int)),
        decreases events.len() - i,
    {
        let ghost before = log_views(v@);
        let ghost x = events@[i as int]@;
        insert_event(&mut v, events[i].clone());
        proof {
            let t = log_views(events@).take(i as int);
            assert(log_views(events@).take(i + 1) =~= t.push(x));
            t.to_multiset_ensures();
            assert forall|by: nat, p: Path| #[trigger]
                entries_at(log_views(v@), by, p) == entries_at(t.push(x), by, p) by {
                let pred = |e: ObscuredView| e.by_layer == by && e.path == p;
                let one = seq![x];
                assert(entries_at(log_views(v@), by, p) == entries_at(before.push(x), by, p));
                assert(entries_at(before, by, p) == entries_at(t, by, p));
                assert(before.push(x) =~= before + one);
                assert(t.push(x) =~= t + one);
                Seq::filter_distributes_over_add(before, one, pred);
                Seq::filter_distributes_over_add(t, one, pred);
            }
        }
        i += 1;
    }
    assert(log_views(events@).take(i as int) =~= log_views(events@));
    v
}

/// The files of the catalog.
fn files_of(map: &Catalog) -> (r: Vec<FileSource>)
    requires
        map.inv(),
    ensures
        files_shown(file_views(r@), map@),
{
    let slots = map.slots();
    let ghost ps = slot_paths(slots@);
    let mut files: Vec<FileSource> = Vec::new();
    let mut i: usize = 0;
    while i < slots.len()
        invariant
            i <= slots@.len(),
            lists(slots@, map@, |p: Path| true),
            ps == slot_paths(slots@),
            ascending(file_paths(file_views(files@))),
            forall|p: Path| #[trigger]
                file_paths(file_views(files@)).contains(p) <==> ps.take(i as int).contains(p)
                    && map@[p].kind is File,
            forall|k: int|
                0 <= k < files@.len() ==> (#[trigger] file_views(files@)[k]).source_layer
                    == map@[file_views(files@)[k].path].source,
        decreases slots@.len() - i,
    {
        let ghost before = file_views(files@);
        let ghost p = slots@[i as int].path@;
        proof {
            assert(ps[i as int] == p);
            assert(ps.take(i + 1) =~= ps.take(i as int).push(p));
            assert forall|q: Path|
                ps.take(i + 1).contains(q) <==> ps.take(i as int).contains(q) || q == p by {
                lemma_push_contains(ps.take(i as int), p, q);
            }
        }
        if slots[i].entry.kind == Kind::File {
            files.push(
                FileSource {
                    path: slots[i].path.clone(),
                    source_layer: slots[i].entry.source,
                },
            );
            proof {
                let after = file_views(files@);
                let f = FileView { path: p, source_layer: map@[p].source };
                assert(after =~= before.push(f));
                let old_paths = file_paths(before);
                let new_paths = file_paths(after);
                assert(new_paths =~= old_paths.push(p));
                assert forall|q: Path| #[trigger]
                    new_paths.contains(q) <==> ps.take(i + 1).contains(q)
                        && map@[q].kind is File by {
                    lemma_push_contains(old_paths, p, q);
                    assert(old_paths.contains(q) <==> ps.take(i as int).contains(q)
                        && map@[q].kind is File);
                }
                assert forall|a: int, b: int| 0 <= a < b < new_paths.len() implies path_lt(
                    new_paths[a],
                    new_paths[b],
                ) by {
                    if b == old_paths.len() {
                        assert(old_paths.contains(old_paths[a]));
                        assert(ps.take(i as int).contains(old_paths[a]));
                        let k = choose|k: int|
                            0 <= k < i && ps.take(i as int)[k] == old_paths[a];
                        assert(path_lt(ps[k], ps[i as int]));
                    } else {
                        assert(path_lt(old_paths[a], old_paths[b]));
                    }
                }
            }
        }
        i += 1;
    }
    proof {
        assert(ps.take(i as int) =~= ps);
        assert forall|p: Path| #[trigger]
            file_paths(file_views(files@)).contains(p) <==> map@.contains_key(p)
                && map@[p].kind is File by {
            assert(ps.contains(p) <==> map@.contains_key(p));
        }
    }
    files
}

/// The number of directories of the catalog.
fn count_dirs(map: &Catalog) -> (r: usize)
    requires
        map.inv(),
    ensures
        r == dir_count(map@),
{
    let slots = map.slots();
    let ghost ps = slot_paths(slots@);
    let ghost mut dirs: Seq<Path> = Seq::empty();
    let mut n: usize = 0;
    let mut i: usize = 0;
    proof {
        lemma_ascending_distinct(ps);
    }
    while i < slots.len()
        invariant
            i <= slots@.len(),
            n <= i,
            lists(slots@, map@, |p: Path| true),
            ps == slot_paths(slots@),
            ps.no_duplicates(),
            n == dirs.len(),
            dirs.no_duplicates(),
            forall|p: Path| #[trigger]
                dirs.contains(p) <==> ps.take(i as int).contains(p) && map@[p].kind is Dir,
        decreases slots@.len() - i,
    {
        let ghost before = dirs;
        let ghost p = slots@[i as int].path@;
        proof {
            assert(ps[i as int] == p);
            assert(ps.take(i + 1) =~= ps.take(i as int).push(p));
            assert forall|q: Path|
                ps.take(i + 1).contains(q) <==> ps.take(i as int).contains(q) || q == p by {
                lemma_push_contains(ps.take(i as int), p, q);
            }
        }
        if slots[i].entry.kind == Kind::Dir {
            n += 1;
            proof {
                dirs = before.push(p);
                if before.contains(p) {
                    let k = choose|k: int| 0 <= k < i && ps.take(i as int)[k] == p;
                    assert(ps[k] == ps[i as int]);
                }
                assert forall|q: Path| #[trigger]
                    dirs.contains(q) <==> ps.take(i + 1).contains(q) && map@[q].kind is Dir by {
                    lemma_push_contains(before, p, q);
                    assert(before.contains(q) <==> ps.take(i as int).contains(q)
                        && map@[q].kind is Dir);
                }
            }
        }
        i += 1;
    }
    proof {
        assert(ps.take(i as int) =~= ps);
        let wanted = map@.dom().filter(|p: Path| map@[p].kind is Dir);
        assert forall|p: Path| dirs.to_set().contains(p) <==> wanted.contains(p) by {
            assert(dirs.contains(p) <==> ps.contains(p) && map@[p].kind is Dir);
            assert(ps.contains(p) <==> map@.contains_key(p));
        }
        assert(dirs.to_set() =~= wanted);
        dirs.unique_seq_to_set();
    }
    n
}

impl Default for Engine {
    fn default() -> (r: Engine)
        ensures
            r.inv(),
            r.image() == Map::<Path, Node>::empty(),
            r.log() == Seq::<ObscuredView>::empty(),
    {
        let r = Engine { map: Catalog::new(), events: Vec::new() };
        assert(r.log() =~= Seq::<ObscuredView>::empty());
        r
    }
}

impl Engine {
    /// Describes the merged image. Log entries come in order of layer and path; those
    /// with the same layer and path stay as they were.
    fn finish(self, layers: usize) -> (r: Output)
        requires
            self.inv(),
        ensures
            tree_shows(r@.tree, self.image()),
            files_shown(r@.files, self.image()),
            r@.obscured.to_multiset() == self.log().to_multiset(),
            events_non_descending(r@.obscured),
            same_order(r@.obscured, self.log()),
            r.stats.layers == layers,
            r.stats.files == r@.files.len(),
            r.stats.dirs == dir_count(self.image()),
            r.stats.obscured == r@.obscured.len(),
    {
        let obscured = sort_events(&self.events);
        let files = files_of(&self.map);
        let stats = Stats { layers, files: files.len(), dirs: count_dirs(&self.map), obscured: 0 };
        Output { tree: build_tree(&self.map), files, obscured, stats }.fix_stats()
    }
}

impl Output {
    /// Fills in the number of log entries.
    fn fix_stats(self) -> (r: Output)
        ensures
            r.tree == self.tree,
            r.files == self.files,
            r.obscured == self.obscured,
            r.stats == (Stats { obscured: self.obscured.len(), ..self.stats }),
    {
        let n = self.obscured.len();
        let mut r = self;
        r.stats.obscured = n;
        r
    }
}

// ---------------------------------------------------------------------------
// Merging
// ---------------------------------------------------------------------------

/// What the log of all layers holds: for each layer, what it hides of the
/// image below it.
pub proof fn lemma_log_entry(layers: Seq<LayerView>, e: ObscuredView)
    ensures
        log_after(layers).contains(e) <==> e.by_layer < layers.len() && hidden(
            image_after(layers.take(e.by_layer as int)),
            layers[e.by_layer as int],
            e.by_layer,
            e.path,
        ) == Some(e),
    decreases layers.len(),
{
    if layers.len() > 0 {
        let rest = layers.drop_last();
        let k = e.by_layer as int;
        lemma_log_entry(rest, e);
        if k < rest.len() {
            assert(rest.take(k) =~= layers.take(k));
        } else if k == rest.len() {
            assert(rest =~= layers.take(k));
        }
    }
}

/// A log without repetitions whose entries differ in layer or path ascends
/// when it is put in order.
proof fn lemma_sorted_log(layers: Seq<LayerView>, log: Seq<ObscuredView>, s: Seq<ObscuredView>)
    requires
        log.no_duplicates(),
        forall|e: ObscuredView| #[trigger] log.contains(e) <==> log_after(layers).contains(e),
        s.to_multiset() == log.to_multiset(),
        events_non_descending(s),
    ensures
        events_ascending(s),
        forall|e: ObscuredView| #[trigger] s.contains(e) <==> log_after(layers).contains(e),
{
    log.lemma_multiset_has_no_duplicates();
    s.lemma_multiset_has_no_duplicates_conv();
    log.to_multiset_ensures();
    s.to_multiset_ensures();
    assert forall|e: ObscuredView| #[trigger] s.contains(e) <==> log_after(layers).contains(e) by {
        assert(s.contains(e) <==> s.to_multiset().count(e) > 0);
        assert(log.contains(e) <==> log.to_multiset().count(e) > 0);
        assert(log.contains(e) <==> log_after(layers).contains(e));
    }
    assert forall|i: int, j: int| 0 <= i < j < s.len() implies event_lt(s[i], s[j]) by {
        assert(s.contains(s[i]));
        assert(s.contains(s[j]));
        lemma_log_entry(layers, s[i]);
        lemma_log_entry(layers, s[j]);
        lemma_lt_total(s[i].path, s[j].path);
        assert(!event_lt(s[j], s[i]));
        assert(s[i] != s[j]);
    }
}

/// What is logged in order is logged once.
proof fn lemma_chronological_distinct(s: Seq<ObscuredView>)
    requires
        chronological(s),
    ensures
        s.no_duplicates(),
{
    assert forall|i: int, j: int| 0 <= i < s.len() && 0 <= j < s.len() && i != j implies s[i]
        != s[j] by {
        lemma_lt_irreflexive(s[i].path);
        if i < j {
            assert(logged_before(s[i], s[j]));
        } else {
            assert(logged_before(s[j], s[i]));
        }
    }
}

/// Merges layers, lowest first, into one image.
pub fn merge(input: &Input) -> (r: Result<Output, MergeError>)
    ensures
        r is Ok <==> all_fit(input@),
        r is Ok ==> describes(
            r->Ok_0@,
            image_after(input@),
            log_after(input@),
            input@.len(),
        ),
        r is Err ==> merge_refusal(input@, r->Err_0@),
{
    let ghost layers = input@;
    let ghost none = Seq::<ObscuredView>::empty();
    let mut engine = Engine::default();
    let mut i: usize = 0;
    proof {
        assert(layers.take(0).len() == 0);
        lemma_extends_none(none, log_after(layers.take(0)));
    }
    while i < input.layers.len()
        invariant
            i <= input.layers.len(),
            layers == input@,
            none == Seq::<ObscuredView>::empty(),
            engine.inv(),
            engine.image() == image_after(layers.take(i as int)),
            extends(none, engine.log(), log_after(layers.take(i as int))),
            forall|k: int| 0 <= k < i ==> #[trigger] layer_fits(layers, k),
        decreases input.layers.len() - i,
    {
        let ghost low = layers.take(i as int);
        let ghost log = engine.log();
        proof {
            let next = layers.take(i + 1);
            assert(next.drop_last() =~= low);
            assert(next.last() == layers[i as int]);
            assert(layers[i as int] == input.layers@[i as int]@);
        }
        match engine.apply_layer(i, &input.layers[i]) {
            Err(e) => {
                proof {
                    assert(!layer_fits(layers, i as int));
                }
                return Err(e);
            },
            Ok(()) => {
                proof {
                    let more = layer_log(image_after(low), layers[i as int], i as nat);
                    assert forall|e: ObscuredView, f: ObscuredView| #[trigger]
                        log_after(low).contains(e) && #[trigger] more.contains(
                            f,
                        ) implies logged_before(e, f) by {
                        lemma_log_entry(low, e);
                    }
                    lemma_extends_chain(none, log, engine.log(), log_after(low), more);
                    assert(layer_fits(layers, i as int));
                }
            },
        }
        i += 1;
    }
    let ghost log = engine.log();
    let r = engine.finish(input.layers.len());
    proof {
        assert(layers.take(i as int) =~= layers);
        assert(log.skip(0) =~= log);
        lemma_chronological_distinct(log);
        lemma_sorted_log(layers, log, r@.obscured);
    }
    Ok(r)
}

} // verus!
